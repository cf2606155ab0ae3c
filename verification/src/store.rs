use vstd::prelude::*;

use crate::books::{BookImageV, BookV};
use crate::collections::CollectionV;
use crate::images::{ImageData, ImageDataV};

verus! {

/// The media store: blobs, the collection forest, and the books with
/// their pages. This is the single shared resource every operation reads
/// and writes.
#[derive(Debug)]
pub struct Store {
    pub blobs: Vec<ImageData>,
    pub next_blob_id: u64,
    pub collections: Vec<crate::collections::Collection>,
    pub books: Vec<crate::books::Book>,
}

/// The mathematical value of a [`Store`].
#[verifier::ext_equal]
pub ghost struct StoreV {
    pub blobs: Seq<ImageDataV>,
    pub next_blob_id: u64,
    pub collections: Seq<CollectionV>,
    pub books: Seq<BookV>,
}

impl View for Store {
    type V = StoreV;

    open spec fn view(&self) -> StoreV {
        StoreV {
            blobs: self.blobs.deep_view(),
            next_blob_id: self.next_blob_id,
            collections: self.collections.deep_view(),
            books: self.books.deep_view(),
        }
    }
}

/// Some blob in `blobs` carries the id `t`.
pub open spec fn blob_present(blobs: Seq<ImageDataV>, t: u64) -> bool {
    exists|i: int| 0 <= i < blobs.len() && (#[trigger] blobs[i]).id == t
}

/// Some collection in `cs` carries the id `id`.
pub open spec fn collection_present(cs: Seq<CollectionV>, id: Seq<char>) -> bool {
    exists|i: int| 0 <= i < cs.len() && (#[trigger] cs[i]).id == id
}

/// Some book in `bs` carries the id `id`.
pub open spec fn book_present(bs: Seq<BookV>, id: Seq<char>) -> bool {
    exists|i: int| 0 <= i < bs.len() && (#[trigger] bs[i]).id == id
}

pub open spec fn blobs_distinct(blobs: Seq<ImageDataV>) -> bool {
    forall|i: int, j: int|
        0 <= i < j < blobs.len() ==> (#[trigger] blobs[i]).id != (#[trigger] blobs[j]).id
}

pub open spec fn blobs_bounded(blobs: Seq<ImageDataV>, next: u64) -> bool {
    forall|i: int| 0 <= i < blobs.len() ==> (#[trigger] blobs[i]).id < next
}

/// Two collections never share an id, and never share a thumbnail blob.
pub open spec fn coll_pair_ok(a: CollectionV, b: CollectionV) -> bool {
    &&& a.id != b.id
    &&& match (a.thumbnail_id, b.thumbnail_id) {
        (Some(x), Some(y)) => x != y,
        _ => true,
    }
}

pub open spec fn collections_distinct(cs: Seq<CollectionV>) -> bool {
    forall|i: int, j: int|
        0 <= i < j < cs.len() ==> coll_pair_ok(#[trigger] cs[i], #[trigger] cs[j])
}

/// A collection's parent stands strictly earlier in the store, which
/// keeps the parent graph acyclic by construction.
pub open spec fn parent_ok_at(cs: Seq<CollectionV>, i: int) -> bool {
    match cs[i].parent_id {
        Some(p) => exists|j: int| 0 <= j < i && (#[trigger] cs[j]).id == p,
        None => true,
    }
}

pub open spec fn parents_resolve(cs: Seq<CollectionV>) -> bool {
    forall|i: int| 0 <= i < cs.len() ==> #[trigger] parent_ok_at(cs, i)
}

pub open spec fn thumb_ok(blobs: Seq<ImageDataV>, c: CollectionV) -> bool {
    match c.thumbnail_id {
        Some(t) => blob_present(blobs, t),
        None => true,
    }
}

pub open spec fn thumbs_resolve(blobs: Seq<ImageDataV>, cs: Seq<CollectionV>) -> bool {
    forall|i: int| 0 <= i < cs.len() ==> thumb_ok(blobs, #[trigger] cs[i])
}

/// Two books never share an id, and their pages never share a blob.
pub open spec fn book_pair_ok(a: BookV, b: BookV) -> bool {
    &&& a.id != b.id
    &&& forall|k: int, l: int|
        0 <= k < a.pages.len() && 0 <= l < b.pages.len() ==> (#[trigger] a.pages[k]).image_id != (
        #[trigger] b.pages[l]).image_id
}

pub open spec fn books_distinct(bs: Seq<BookV>) -> bool {
    forall|i: int, j: int|
        0 <= i < j < bs.len() ==> book_pair_ok(#[trigger] bs[i], #[trigger] bs[j])
}

/// Page `k` of book `b` is well-placed: densely numbered, tagged with its
/// book, and backed by a stored blob.
pub open spec fn page_ok(blobs: Seq<ImageDataV>, b: BookV, k: int) -> bool {
    &&& b.pages[k].page_number == k
    &&& b.pages[k].book_id == b.id
    &&& blob_present(blobs, b.pages[k].image_id)
}

/// Two pages of one book never share an id or a blob.
pub open spec fn page_pair_ok(x: BookImageV, y: BookImageV) -> bool {
    x.id != y.id && x.image_id != y.image_id
}

pub open spec fn book_ok(cs: Seq<CollectionV>, blobs: Seq<ImageDataV>, b: BookV) -> bool {
    &&& collection_present(cs, b.collection_id)
    &&& forall|k: int| 0 <= k < b.pages.len() ==> #[trigger] page_ok(blobs, b, k)
    &&& forall|k: int, l: int|
        0 <= k < l < b.pages.len() ==> page_pair_ok(#[trigger] b.pages[k], #[trigger] b.pages[l])
}

pub open spec fn books_ok(cs: Seq<CollectionV>, blobs: Seq<ImageDataV>, bs: Seq<BookV>) -> bool {
    forall|i: int| 0 <= i < bs.len() ==> book_ok(cs, blobs, #[trigger] bs[i])
}

/// A collection's thumbnail blob is never also a page blob.
pub open spec fn coll_book_ok(c: CollectionV, b: BookV) -> bool {
    match c.thumbnail_id {
        Some(t) => forall|k: int| 0 <= k < b.pages.len() ==> (#[trigger] b.pages[k]).image_id != t,
        None => true,
    }
}

pub open spec fn thumbs_pages_disjoint(cs: Seq<CollectionV>, bs: Seq<BookV>) -> bool {
    forall|i: int, j: int|
        0 <= i < cs.len() && 0 <= j < bs.len() ==> coll_book_ok(#[trigger] cs[i], #[trigger] bs[j])
}

impl StoreV {
    /// Well-formedness: every identifier is unique, every reference
    /// resolves, no blob has two owners, parents precede children, and
    /// pages are densely numbered in order.
    pub open spec fn wf(self) -> bool {
        &&& blobs_distinct(self.blobs)
        &&& blobs_bounded(self.blobs, self.next_blob_id)
        &&& collections_distinct(self.collections)
        &&& parents_resolve(self.collections)
        &&& thumbs_resolve(self.blobs, self.collections)
        &&& books_distinct(self.books)
        &&& books_ok(self.collections, self.blobs, self.books)
        &&& thumbs_pages_disjoint(self.collections, self.books)
    }

    /// Blob `t` is referenced by a thumbnail or a page.
    pub open spec fn blob_referenced(self, t: u64) -> bool {
        ||| exists|i: int|
            0 <= i < self.collections.len() && (#[trigger] self.collections[i]).thumbnail_id
                == Some(t)
        ||| exists|i: int, k: int|
            0 <= i < self.books.len() && 0 <= k < self.books[i].pages.len() && (
            #[trigger] self.books[i].pages[k]).image_id == t
    }
}

/// The blob id space is not exhausted.
pub open spec fn blob_space_left(s: StoreV) -> bool {
    s.next_blob_id < u64::MAX
}

/// The store after putting new content: a fresh blob under the next id.
pub open spec fn put_blob(s: StoreV, mime: Seq<char>, content: Seq<u8>) -> StoreV {
    StoreV {
        blobs: s.blobs.push(ImageDataV { id: s.next_blob_id, mime, content }),
        next_blob_id: (s.next_blob_id + 1) as u64,
        collections: s.collections,
        books: s.books,
    }
}

/// The store after removing the blob with id `id`.
pub open spec fn remove_blob(s: StoreV, id: u64) -> StoreV {
    StoreV {
        blobs: s.blobs.filter(|b: ImageDataV| b.id != id),
        next_blob_id: s.next_blob_id,
        collections: s.collections,
        books: s.books,
    }
}

/// All pairs in order satisfy `r`.
pub open spec fn pairwise<A>(s: Seq<A>, r: spec_fn(A, A) -> bool) -> bool {
    forall|i: int, j: int| 0 <= i < j < s.len() ==> #[trigger] r(s[i], s[j])
}

/// Every element of a filtered sequence is an element of the original.
pub proof fn lemma_filter_sub<A>(s: Seq<A>, pred: spec_fn(A) -> bool)
    ensures
        forall|i: int|
            0 <= i < s.filter(pred).len() ==> s.contains(#[trigger] s.filter(pred)[i]),
    decreases s.len(),
{
    reveal(Seq::filter);
    if s.len() > 0 {
        let d = s.drop_last();
        lemma_filter_sub(d, pred);
        assert forall|i: int|
            0 <= i < s.filter(pred).len() implies s.contains(#[trigger] s.filter(pred)[i]) by {
            if i < d.filter(pred).len() {
                assert(s.filter(pred)[i] == d.filter(pred)[i]);
                let j = choose|j: int| 0 <= j < d.len() && d[j] == d.filter(pred)[i];
                assert(s[j] == d.filter(pred)[i]);
            } else {
                assert(s.filter(pred)[i] == s.last());
                assert(s[s.len() - 1] == s.last());
            }
        }
    }
}

/// Filtering keeps every ordered-pair property.
pub proof fn lemma_filter_preserves_pairwise<A>(
    s: Seq<A>,
    pred: spec_fn(A) -> bool,
    r: spec_fn(A, A) -> bool,
)
    requires
        pairwise(s, r),
    ensures
        pairwise(s.filter(pred), r),
    decreases s.len(),
{
    reveal(Seq::filter);
    if s.len() > 0 {
        let d = s.drop_last();
        assert forall|i: int, j: int| 0 <= i < j < d.len() implies #[trigger] r(d[i], d[j]) by {
            assert(d[i] == s[i] && d[j] == s[j]);
            assert(r(s[i], s[j]));
        }
        lemma_filter_preserves_pairwise(d, pred, r);
        lemma_filter_sub(d, pred);
        let f = s.filter(pred);
        assert forall|i: int, j: int| 0 <= i < j < f.len() implies #[trigger] r(f[i], f[j]) by {
            if pred(s.last()) && j == f.len() - 1 {
                assert(f[j] == s.last());
                assert(f[i] == d.filter(pred)[i]);
                let m = choose|m: int| 0 <= m < d.len() && d[m] == d.filter(pred)[i];
                assert(s[m] == f[i]);
                assert(r(s[m], s[s.len() - 1]));
            } else {
                assert(f[i] == d.filter(pred)[i] && f[j] == d.filter(pred)[j]);
                assert(r(d.filter(pred)[i], d.filter(pred)[j]));
            }
        }
    }
}

/// One step of filtering a growing prefix.
pub proof fn lemma_filter_take_step<A>(s: Seq<A>, pred: spec_fn(A) -> bool, i: int)
    requires
        0 <= i < s.len(),
    ensures
        s.subrange(0, i + 1).filter(pred) == if pred(s[i]) {
            s.subrange(0, i).filter(pred).push(s[i])
        } else {
            s.subrange(0, i).filter(pred)
        },
{
    reveal(Seq::filter);
    let t = s.subrange(0, i + 1);
    assert(t.drop_last() =~= s.subrange(0, i));
    assert(t.last() == s[i]);
}

/// A filter that keeps everything returns the sequence itself.
pub proof fn lemma_filter_all<A>(s: Seq<A>, pred: spec_fn(A) -> bool)
    requires
        forall|i: int| 0 <= i < s.len() ==> pred(#[trigger] s[i]),
    ensures
        s.filter(pred) == s,
    decreases s.len(),
{
    reveal(Seq::filter);
    if s.len() > 0 {
        let d = s.drop_last();
        assert(forall|i: int| 0 <= i < d.len() ==> pred(#[trigger] d[i]));
        lemma_filter_all(d, pred);
        assert(pred(s[s.len() - 1]));
        assert(d.filter(pred).push(s.last()) =~= s);
    }
}

/// A filter that drops exactly the element at `i` is a removal at `i`.
pub proof fn lemma_filter_is_remove<A>(s: Seq<A>, pred: spec_fn(A) -> bool, i: int)
    requires
        0 <= i < s.len(),
        !pred(s[i]),
        forall|j: int| 0 <= j < s.len() && j != i ==> pred(#[trigger] s[j]),
    ensures
        s.filter(pred) == s.remove(i),
    decreases s.len(),
{
    reveal(Seq::filter);
    let d = s.drop_last();
    if i == s.len() - 1 {
        assert(forall|j: int| 0 <= j < d.len() ==> pred(#[trigger] d[j]));
        lemma_filter_all(d, pred);
        assert(s.remove(i) =~= d);
    } else {
        assert(!pred(d[i]));
        assert(forall|j: int| 0 <= j < d.len() && j != i ==> pred(#[trigger] d[j]));
        lemma_filter_is_remove(d, pred, i);
        assert(pred(s.last()));
        assert(s[s.len() - 1] == s.last());
        assert(s.filter(pred) == d.remove(i).push(s.last()));
        assert(d.remove(i).push(s.last()) =~= s.remove(i));
    }
}

/// Filtering a sequence filters its multiset.
pub proof fn lemma_filter_to_multiset<A>(s: Seq<A>, pred: spec_fn(A) -> bool)
    ensures
        s.filter(pred).to_multiset() == s.to_multiset().filter(pred),
    decreases s.len(),
{
    broadcast use vstd::multiset::group_multiset_axioms;

    reveal(Seq::filter);
    s.to_multiset_ensures();
    s.filter(pred).to_multiset_ensures();
    if s.len() == 0 {
        assert(s.filter(pred) =~= s);
        assert forall|v: A| s.filter(pred).to_multiset().count(v) == s.to_multiset().filter(
            pred,
        ).count(v) by {
            assert(s.to_multiset().count(v) == 0);
        }
        assert(s.filter(pred).to_multiset() =~= s.to_multiset().filter(pred));
    } else {
        let d = s.drop_last();
        let x = s.last();
        lemma_filter_to_multiset(d, pred);
        d.to_multiset_ensures();
        d.filter(pred).to_multiset_ensures();
        assert(s =~= d.push(x));
        assert(s.to_multiset() == d.to_multiset().insert(x));
        if pred(x) {
            assert(s.filter(pred) == d.filter(pred).push(x));
            assert(s.filter(pred).to_multiset() == d.filter(pred).to_multiset().insert(x));
        }
        assert forall|v: A| s.filter(pred).to_multiset().count(v) == s.to_multiset().filter(
            pred,
        ).count(v) by {
            assert(d.filter(pred).to_multiset().count(v) == d.to_multiset().filter(pred).count(
                v,
            ));
        }
        assert(s.filter(pred).to_multiset() =~= s.to_multiset().filter(pred));
    }
}

/// Appending a blob does not hide any present blob.
pub proof fn lemma_blob_present_push(blobs: Seq<ImageDataV>, nb: ImageDataV)
    ensures
        forall|t: u64| blob_present(blobs, t) ==> #[trigger] blob_present(blobs.push(nb), t),
{
    assert forall|t: u64| blob_present(blobs, t) implies #[trigger] blob_present(
        blobs.push(nb),
        t,
    ) by {
        let j = choose|j: int| 0 <= j < blobs.len() && (#[trigger] blobs[j]).id == t;
        assert(blobs.push(nb)[j] == blobs[j]);
    }
}

/// Putting a blob keeps the store well-formed.
pub proof fn lemma_put_blob_wf(s: StoreV, mime: Seq<char>, content: Seq<u8>)
    requires
        s.wf(),
        blob_space_left(s),
    ensures
        put_blob(s, mime, content).wf(),
{
    let t = put_blob(s, mime, content);
    let nb = ImageDataV { id: s.next_blob_id, mime, content };
    assert forall|i: int, j: int| 0 <= i < j < t.blobs.len() implies (#[trigger] t.blobs[i]).id
        != (#[trigger] t.blobs[j]).id by {
        if j < s.blobs.len() {
            assert(t.blobs[i] == s.blobs[i] && t.blobs[j] == s.blobs[j]);
        } else {
            assert(t.blobs[j] == nb);
            assert(t.blobs[i] == s.blobs[i]);
            assert(s.blobs[i].id < s.next_blob_id);
        }
    }
    assert forall|i: int| 0 <= i < t.blobs.len() implies (#[trigger] t.blobs[i]).id
        < t.next_blob_id by {
        if i < s.blobs.len() {
            assert(t.blobs[i] == s.blobs[i]);
        } else {
            assert(t.blobs[i] == nb);
        }
    }
    lemma_blob_present_push(s.blobs, nb);
    assert forall|i: int| 0 <= i < t.collections.len() implies thumb_ok(
        t.blobs,
        #[trigger] t.collections[i],
    ) by {
        assert(thumb_ok(s.blobs, s.collections[i]));
    }
    assert forall|i: int| 0 <= i < t.books.len() implies book_ok(
        t.collections,
        t.blobs,
        #[trigger] t.books[i],
    ) by {
        let b = s.books[i];
        assert(book_ok(s.collections, s.blobs, b));
        assert forall|k: int| 0 <= k < b.pages.len() implies #[trigger] page_ok(t.blobs, b, k) by {
            assert(page_ok(s.blobs, b, k));
        }
    }
}

/// Removing an unreferenced blob keeps the store well-formed.
pub proof fn lemma_remove_blob_wf(s: StoreV, id: u64)
    requires
        s.wf(),
        !s.blob_referenced(id),
    ensures
        remove_blob(s, id).wf(),
{
    let pred = |b: ImageDataV| b.id != id;
    let t = remove_blob(s, id);
    let r = |a: ImageDataV, b: ImageDataV| a.id != b.id;
    assert forall|i: int, j: int| 0 <= i < j < s.blobs.len() implies #[trigger] r(
        s.blobs[i],
        s.blobs[j],
    ) by {
        assert(s.blobs[i].id != s.blobs[j].id);
    }
    lemma_filter_preserves_pairwise(s.blobs, pred, r);
    assert forall|i: int, j: int| 0 <= i < j < t.blobs.len() implies (#[trigger] t.blobs[i]).id
        != (#[trigger] t.blobs[j]).id by {
        assert(r(t.blobs[i], t.blobs[j]));
    }
    lemma_filter_sub(s.blobs, pred);
    assert forall|i: int| 0 <= i < t.blobs.len() implies (#[trigger] t.blobs[i]).id
        < t.next_blob_id by {
        let j = choose|j: int| 0 <= j < s.blobs.len() && s.blobs[j] == t.blobs[i];
        assert(s.blobs[j].id < s.next_blob_id);
    }
    assert forall|i: int| 0 <= i < t.collections.len() implies thumb_ok(
        t.blobs,
        #[trigger] t.collections[i],
    ) by {
        let c = s.collections[i];
        assert(thumb_ok(s.blobs, c));
        match c.thumbnail_id {
            Some(tb) => {
                assert(c.thumbnail_id != Some(id));
                let j = choose|j: int| 0 <= j < s.blobs.len() && (#[trigger] s.blobs[j]).id == tb;
                assert(pred(s.blobs[j]));
                s.blobs.lemma_filter_contains(pred, j);
                let m = choose|m: int|
                    0 <= m < t.blobs.len() && #[trigger] t.blobs[m] == s.blobs[j];
                assert(blob_present(t.blobs, tb));
            },
            None => {},
        }
    }
    assert forall|i: int| 0 <= i < t.books.len() implies book_ok(
        t.collections,
        t.blobs,
        #[trigger] t.books[i],
    ) by {
        let b = s.books[i];
        assert(book_ok(s.collections, s.blobs, b));
        assert forall|k: int| 0 <= k < b.pages.len() implies #[trigger] page_ok(t.blobs, b, k) by {
            assert(page_ok(s.blobs, b, k));
            let pid = b.pages[k].image_id;
            assert(pid != id);
            let j = choose|j: int| 0 <= j < s.blobs.len() && (#[trigger] s.blobs[j]).id == pid;
            assert(pred(s.blobs[j]));
            s.blobs.lemma_filter_contains(pred, j);
            let m = choose|m: int| 0 <= m < t.blobs.len() && #[trigger] t.blobs[m] == s.blobs[j];
            assert(blob_present(t.blobs, pid));
        }
    }
}

impl Store {
    /// An empty store. Blob ids start at 1, as the backing medium's
    /// row counter would.
    pub fn new() -> (r: Store)
        ensures
            r@ == empty_store(),
            r@.wf(),
    {
        let r = Store {
            blobs: Vec::new(),
            next_blob_id: 1,
            collections: Vec::new(),
            books: Vec::new(),
        };
        proof {
            assert(r@ =~= empty_store());
        }
        r
    }

    /// How many blobs the store holds.
    pub fn blob_count(&self) -> (r: usize)
        ensures
            r == self@.blobs.len(),
    {
        self.blobs.len()
    }

    /// How many collections the store holds.
    pub fn collection_count(&self) -> (r: usize)
        ensures
            r == self@.collections.len(),
    {
        self.collections.len()
    }

    /// How many books the store holds.
    pub fn book_count(&self) -> (r: usize)
        ensures
            r == self@.books.len(),
    {
        self.books.len()
    }
}

/// The value of a store holding nothing.
pub open spec fn empty_store() -> StoreV {
    StoreV {
        blobs: Seq::empty(),
        next_blob_id: 1,
        collections: Seq::empty(),
        books: Seq::empty(),
    }
}

} // verus!
