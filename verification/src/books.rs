use vstd::prelude::*;

use crate::errors::StoreError;
use crate::images::{ImageData, ImageDataV};
use crate::store::{
    blob_present, book_ok, book_present, collection_present, page_ok, thumb_ok, Store, StoreV,
};

verus! {

/// One rendered page of a book: a zero-based position and a reference to
/// the blob that holds the page image. `file_name` is the original
/// resource name, informational only.
#[derive(Debug)]
pub struct BookImage {
    pub id: String,
    pub book_id: String,
    pub file_name: String,
    pub page_number: usize,
    pub image_id: u64,
}

/// The mathematical value of a [`BookImage`].
#[verifier::ext_equal]
pub ghost struct BookImageV {
    pub id: Seq<char>,
    pub book_id: Seq<char>,
    pub file_name: Seq<char>,
    pub page_number: usize,
    pub image_id: u64,
}

impl View for BookImage {
    type V = BookImageV;

    open spec fn view(&self) -> BookImageV {
        BookImageV {
            id: self.id@,
            book_id: self.book_id@,
            file_name: self.file_name@,
            page_number: self.page_number,
            image_id: self.image_id,
        }
    }
}

impl DeepView for BookImage {
    type V = BookImageV;

    open spec fn deep_view(&self) -> BookImageV {
        self.view()
    }
}

impl BookImage {
    /// An explicit copy with a contract; a derived clone would promise
    /// nothing to the verifier.
    pub fn duplicate(&self) -> (r: BookImage)
        ensures
            r@ == self@,
    {
        BookImage {
            id: self.id.clone(),
            book_id: self.book_id.clone(),
            file_name: self.file_name.clone(),
            page_number: self.page_number,
            image_id: self.image_id,
        }
    }
}

/// An ingested publication: it belongs to exactly one collection and owns
/// its pages, kept in ascending page order.
#[derive(Debug)]
pub struct Book {
    pub id: String,
    pub name: String,
    pub collection_id: String,
    pub pages: Vec<BookImage>,
}

/// The mathematical value of a [`Book`].
#[verifier::ext_equal]
pub ghost struct BookV {
    pub id: Seq<char>,
    pub name: Seq<char>,
    pub collection_id: Seq<char>,
    pub pages: Seq<BookImageV>,
}

impl View for Book {
    type V = BookV;

    open spec fn view(&self) -> BookV {
        BookV {
            id: self.id@,
            name: self.name@,
            collection_id: self.collection_id@,
            pages: self.pages.deep_view(),
        }
    }
}

impl DeepView for Book {
    type V = BookV;

    open spec fn deep_view(&self) -> BookV {
        self.view()
    }
}

impl Book {
    /// An explicit copy with a contract; a derived clone would promise
    /// nothing to the verifier.
    pub fn duplicate(&self) -> (r: Book)
        ensures
            r@ == self@,
    {
        let mut pages: Vec<BookImage> = Vec::new();
        let n = self.pages.len();
        let mut i: usize = 0;
        while i < n
            invariant
                n == self.pages.len(),
                i <= n,
                pages.deep_view() =~= self.pages.deep_view().subrange(0, i as int),
            decreases n - i,
        {
            let ghost v0 = pages@;
            let ghost dv0 = pages.deep_view();
            pages.push(self.pages[i].duplicate());
            proof {
                assert(self.pages.deep_view().len() == n as int);
                assert(dv0.len() == i as int);
                assert(pages@ == v0.push(pages@[v0.len() as int]));
                assert forall|k: int| 0 <= k < pages@.len() implies pages.deep_view()[k]
                    == self.pages.deep_view().subrange(0, i + 1)[k] by {
                    if k < v0.len() {
                        assert(pages@[k] == v0[k]);
                        assert(dv0[k] == v0[k].deep_view());
                        assert(dv0[k] == self.pages.deep_view()[k]);
                    } else {
                        assert(pages@[k]@ == self.pages@[i as int]@);
                    }
                }
                assert(pages.deep_view() =~= self.pages.deep_view().subrange(0, i + 1));
            }
            i += 1;
        }
        proof {
            assert(pages.deep_view() =~= self.pages.deep_view());
        }
        let r = Book {
            id: self.id.clone(),
            name: self.name.clone(),
            collection_id: self.collection_id.clone(),
            pages,
        };
        proof {
            assert(r@ =~= self@);
        }
        r
    }
}

/// The source material of one page handed to book creation: content, its
/// type, and the original resource name.
#[derive(Debug)]
pub struct PageSource {
    pub mime: String,
    pub content: Vec<u8>,
    pub file_name: String,
}

/// The mathematical value of a [`PageSource`].
#[verifier::ext_equal]
pub ghost struct PageSourceV {
    pub mime: Seq<char>,
    pub content: Seq<u8>,
    pub file_name: Seq<char>,
}

impl View for PageSource {
    type V = PageSourceV;

    open spec fn view(&self) -> PageSourceV {
        PageSourceV { mime: self.mime@, content: self.content@, file_name: self.file_name@ }
    }
}

impl DeepView for PageSource {
    type V = PageSourceV;

    open spec fn deep_view(&self) -> PageSourceV {
        self.view()
    }
}

/// The first book with the given id, in store order.
pub open spec fn find_book(bs: Seq<BookV>, id: Seq<char>) -> Option<BookV>
    decreases bs.len(),
{
    if bs.len() == 0 {
        None
    } else if bs[0].id == id {
        Some(bs[0])
    } else {
        find_book(bs.drop_first(), id)
    }
}

pub proof fn lemma_find_book_ensures(bs: Seq<BookV>, id: Seq<char>)
    ensures
        match find_book(bs, id) {
            Some(b) => b.id == id && bs.contains(b),
            None => forall|i: int| 0 <= i < bs.len() ==> (#[trigger] bs[i]).id != id,
        },
    decreases bs.len(),
{
    if bs.len() > 0 && bs[0].id != id {
        lemma_find_book_ensures(bs.drop_first(), id);
        match find_book(bs.drop_first(), id) {
            Some(b) => {
                let i = choose|i: int| 0 <= i < bs.drop_first().len() && bs.drop_first()[i] == b;
                assert(bs[i + 1] == b);
            },
            None => {
                assert forall|i: int| 0 <= i < bs.len() implies (#[trigger] bs[i]).id != id by {
                    if i > 0 {
                        assert(bs.drop_first()[i - 1] == bs[i]);
                    }
                }
            },
        }
    }
}

/// The first page of a book with the given page id.
pub open spec fn find_page(ps: Seq<BookImageV>, id: Seq<char>) -> Option<BookImageV>
    decreases ps.len(),
{
    if ps.len() == 0 {
        None
    } else if ps[0].id == id {
        Some(ps[0])
    } else {
        find_page(ps.drop_first(), id)
    }
}

/// The value of page sources zipped with their chosen page ids.
pub open spec fn sources_view(pages: Seq<(String, PageSource)>) -> Seq<(Seq<char>, PageSourceV)> {
    Seq::new(pages.len(), |i: int| (pages[i].0@, pages[i].1@))
}

pub open spec fn page_ids_distinct(pv: Seq<(Seq<char>, PageSourceV)>) -> bool {
    forall|i: int, j: int| 0 <= i < j < pv.len() ==> (#[trigger] pv[i]).0 != (#[trigger] pv[j]).0
}

/// The blobs a book creation stores: one per page, under consecutive
/// ids starting at `start`.
pub open spec fn new_page_blobs(start: u64, pv: Seq<(Seq<char>, PageSourceV)>) -> Seq<ImageDataV> {
    Seq::new(
        pv.len(),
        |i: int| ImageDataV { id: (start + i) as u64, mime: pv[i].1.mime, content: pv[i].1.content },
    )
}

/// The page records a book creation files, densely numbered in input
/// order.
pub open spec fn new_book_pages(
    start: u64,
    book_id: Seq<char>,
    pv: Seq<(Seq<char>, PageSourceV)>,
) -> Seq<BookImageV> {
    Seq::new(
        pv.len(),
        |i: int|
            BookImageV {
                id: pv[i].0,
                book_id: book_id,
                file_name: pv[i].1.file_name,
                page_number: i as usize,
                image_id: (start + i) as u64,
            },
    )
}

pub open spec fn built_book(
    s: StoreV,
    book_id: Seq<char>,
    name: Seq<char>,
    collection_id: Seq<char>,
    pv: Seq<(Seq<char>, PageSourceV)>,
) -> BookV {
    BookV { id: book_id, name, collection_id, pages: new_book_pages(s.next_blob_id, book_id, pv) }
}

/// The store after a book creation: the page blobs, then the book with
/// its pages, all in one step.
pub open spec fn insert_book_post(
    s: StoreV,
    book_id: Seq<char>,
    name: Seq<char>,
    collection_id: Seq<char>,
    pv: Seq<(Seq<char>, PageSourceV)>,
) -> StoreV {
    StoreV {
        blobs: s.blobs + new_page_blobs(s.next_blob_id, pv),
        next_blob_id: (s.next_blob_id + pv.len()) as u64,
        collections: s.collections,
        books: s.books.push(built_book(s, book_id, name, collection_id, pv)),
    }
}

/// When a book creation goes through: the collection resolves, the ids
/// are fresh and distinct, and the blob id space suffices.
pub open spec fn insert_book_ok(
    s: StoreV,
    book_id: Seq<char>,
    collection_id: Seq<char>,
    pv: Seq<(Seq<char>, PageSourceV)>,
) -> bool {
    &&& collection_present(s.collections, collection_id)
    &&& !book_present(s.books, book_id)
    &&& page_ids_distinct(pv)
    &&& s.next_blob_id + pv.len() <= u64::MAX
    &&& pv.len() <= usize::MAX
}

/// A book creation keeps the store well-formed.
pub proof fn lemma_insert_book_wf(
    s: StoreV,
    book_id: Seq<char>,
    name: Seq<char>,
    collection_id: Seq<char>,
    pv: Seq<(Seq<char>, PageSourceV)>,
)
    requires
        s.wf(),
        insert_book_ok(s, book_id, collection_id, pv),
    ensures
        insert_book_post(s, book_id, name, collection_id, pv).wf(),
{
    let t = insert_book_post(s, book_id, name, collection_id, pv);
    let nb = new_page_blobs(s.next_blob_id, pv);
    let newbook = built_book(s, book_id, name, collection_id, pv);
    assert(t.blobs.len() == s.blobs.len() + pv.len());
    assert forall|i: int| 0 <= i < t.blobs.len() implies #[trigger] t.blobs[i] == if i
        < s.blobs.len() {
        s.blobs[i]
    } else {
        nb[i - s.blobs.len()]
    } by {}
    assert forall|i: int, j: int| 0 <= i < j < t.blobs.len() implies (#[trigger] t.blobs[i]).id
        != (#[trigger] t.blobs[j]).id by {
        if j < s.blobs.len() {
            assert(s.blobs[i].id != s.blobs[j].id);
        } else if i < s.blobs.len() {
            assert(s.blobs[i].id < s.next_blob_id);
        }
    }
    assert forall|i: int| 0 <= i < t.blobs.len() implies (#[trigger] t.blobs[i]).id
        < t.next_blob_id by {
        if i < s.blobs.len() {
            assert(s.blobs[i].id < s.next_blob_id);
        }
    }
    assert forall|tb: u64| blob_present(s.blobs, tb) implies #[trigger] blob_present(
        t.blobs,
        tb,
    ) by {
        let j = choose|j: int| 0 <= j < s.blobs.len() && (#[trigger] s.blobs[j]).id == tb;
        assert(t.blobs[j] == s.blobs[j]);
    }
    assert forall|i: int| 0 <= i < t.collections.len() implies thumb_ok(
        t.blobs,
        #[trigger] t.collections[i],
    ) by {
        assert(thumb_ok(s.blobs, s.collections[i]));
    }
    // A resolving blob reference is an old one, hence below the fresh range.
    assert forall|i: int, j: int| 0 <= i < j < t.books.len() implies crate::store::book_pair_ok(
        #[trigger] t.books[i],
        #[trigger] t.books[j],
    ) by {
        if j < s.books.len() {
            assert(crate::store::book_pair_ok(s.books[i], s.books[j]));
        } else {
            assert(t.books[j] == newbook);
            let a = s.books[i];
            assert(t.books[i] == a);
            assert(book_ok(s.collections, s.blobs, a));
            assert(a.id != book_id);
            assert forall|k: int, l: int|
                0 <= k < a.pages.len() && 0 <= l < newbook.pages.len() implies (
            #[trigger] a.pages[k]).image_id != (#[trigger] newbook.pages[l]).image_id by {
                assert(page_ok(s.blobs, a, k));
                let bj = choose|bj: int|
                    0 <= bj < s.blobs.len() && (#[trigger] s.blobs[bj]).id == a.pages[k].image_id;
                assert(a.pages[k].image_id < s.next_blob_id);
            }
        }
    }
    assert forall|i: int| 0 <= i < t.books.len() implies book_ok(
        t.collections,
        t.blobs,
        #[trigger] t.books[i],
    ) by {
        if i < s.books.len() {
            let b = s.books[i];
            assert(book_ok(s.collections, s.blobs, b));
            assert forall|k: int| 0 <= k < b.pages.len() implies #[trigger] page_ok(
                t.blobs,
                b,
                k,
            ) by {
                assert(page_ok(s.blobs, b, k));
            }
        } else {
            assert(t.books[i] == newbook);
            assert forall|k: int| 0 <= k < newbook.pages.len() implies #[trigger] page_ok(
                t.blobs,
                newbook,
                k,
            ) by {
                assert(newbook.pages[k] == new_book_pages(s.next_blob_id, book_id, pv)[k]);
                assert(t.blobs[s.blobs.len() + k] == nb[k]);
                assert(nb[k].id == (s.next_blob_id + k) as u64);
                assert(blob_present(t.blobs, newbook.pages[k].image_id)) by {
                    assert((#[trigger] t.blobs[s.blobs.len() + k]).id
                        == newbook.pages[k].image_id);
                }
            }
            assert forall|k: int, l: int|
                0 <= k < l < newbook.pages.len() implies crate::store::page_pair_ok(
                #[trigger] newbook.pages[k],
                #[trigger] newbook.pages[l],
            ) by {
                assert(pv[k].0 != pv[l].0);
            }
        }
    }
    assert forall|i: int, j: int|
        0 <= i < t.collections.len() && 0 <= j < t.books.len() implies crate::store::coll_book_ok(
        #[trigger] t.collections[i],
        #[trigger] t.books[j],
    ) by {
        if j < s.books.len() {
            assert(crate::store::coll_book_ok(s.collections[i], s.books[j]));
        } else {
            assert(t.books[j] == newbook);
            let c = s.collections[i];
            match c.thumbnail_id {
                Some(tb) => {
                    assert(thumb_ok(s.blobs, c));
                    let bj = choose|bj: int|
                        0 <= bj < s.blobs.len() && (#[trigger] s.blobs[bj]).id == tb;
                    assert(tb < s.next_blob_id);
                    assert forall|k: int|
                        0 <= k < newbook.pages.len() implies (#[trigger] newbook.pages[k]).image_id
                        != tb by {}
                },
                None => {},
            }
        }
    }
}

/// The index of the book with the given id, if present.
pub(crate) fn find_book_idx(bs: &Vec<Book>, id: &String) -> (r: Option<usize>)
    ensures
        match r {
            Some(i) => i < bs.len() && bs.deep_view()[i as int].id == id@ && find_book(
                bs.deep_view(),
                id@,
            ) == Some(bs.deep_view()[i as int]) && book_present(bs.deep_view(), id@),
            None => find_book(bs.deep_view(), id@) is None && !book_present(bs.deep_view(), id@),
        },
{
    let n = bs.len();
    let mut i: usize = 0;
    proof {
        assert(bs.deep_view().skip(0) =~= bs.deep_view());
    }
    while i < n
        invariant
            n == bs.len(),
            i <= n,
            find_book(bs.deep_view(), id@) == find_book(bs.deep_view().skip(i as int), id@),
            forall|j: int| 0 <= j < i ==> (#[trigger] bs.deep_view()[j]).id != id@,
        decreases n - i,
    {
        proof {
            assert(bs.deep_view().skip(i as int)[0] == bs.deep_view()[i as int]);
            assert(bs.deep_view().skip(i as int).drop_first() =~= bs.deep_view().skip(i + 1));
        }
        if bs[i].id == *id {
            return Some(i);
        }
        i += 1;
    }
    proof {
        assert(bs.deep_view().skip(n as int) =~= Seq::<BookV>::empty());
        if book_present(bs.deep_view(), id@) {
            let j = choose|j: int|
                0 <= j < bs.deep_view().len() && (#[trigger] bs.deep_view()[j]).id == id@;
            assert(false);
        }
    }
    None
}

/// Files a new book under caller-chosen ids, storing one blob per page
/// and numbering pages densely in input order. `CollectionNotFound`
/// exactly when the target collection is absent; `StoreUnavailable`
/// exactly when an id is taken or duplicated or the blob id space is
/// exhausted.
pub fn insert_book(
    store: &mut Store,
    book_id: String,
    name: String,
    collection_id: String,
    pages: Vec<(String, PageSource)>,
) -> (r: Result<Book, StoreError>)
    requires
        old(store)@.wf(),
    ensures
        final(store)@.wf(),
        r == Result::<Book, StoreError>::Err(StoreError::CollectionNotFound)
            <==> !collection_present(old(store)@.collections, collection_id@),
        r is Ok <==> insert_book_ok(old(store)@, book_id@, collection_id@, sources_view(pages@)),
        r is Err ==> final(store)@ == old(store)@,
        r is Err ==> r == Result::<Book, StoreError>::Err(StoreError::CollectionNotFound) || r
            == Result::<Book, StoreError>::Err(StoreError::StoreUnavailable),
        r matches Ok(b) ==> b@ == built_book(
            old(store)@,
            book_id@,
            name@,
            collection_id@,
            sources_view(pages@),
        ) && final(store)@ == insert_book_post(
            old(store)@,
            book_id@,
            name@,
            collection_id@,
            sources_view(pages@),
        ),
{
    let ghost pre = store@;
    let ghost pv = sources_view(pages@);
    if crate::collections::find_collection_idx(&store.collections, &collection_id).is_none() {
        return Err(StoreError::CollectionNotFound);
    }
    if find_book_idx(&store.books, &book_id).is_some() {
        return Err(StoreError::StoreUnavailable);
    }
    let m = pages.len();
    let mut i: usize = 0;
    while i < m
        invariant
            m == pages.len(),
            i <= m,
            pv == sources_view(pages@),
            store@ == old(store)@,
            old(store)@.wf(),
            collection_present(old(store)@.collections, collection_id@),
            forall|a: int, b: int| 0 <= a < b < pv.len() && a < i ==> (#[trigger] pv[a]).0 != (
            #[trigger] pv[b]).0,
        decreases m - i,
    {
        let mut j: usize = i + 1;
        while j < m
            invariant
                m == pages.len(),
                i < m,
                i < j <= m,
                pv == sources_view(pages@),
                store@ == old(store)@,
                old(store)@.wf(),
                collection_present(old(store)@.collections, collection_id@),
                forall|b: int| i < b < j ==> (#[trigger] pv[b]).0 != pv[i as int].0,
            decreases m - j,
        {
            if pages[i].0 == pages[j].0 {
                proof {
                    assert((#[trigger] pv[i as int]).0 == (#[trigger] pv[j as int]).0);
                    assert(!page_ids_distinct(pv));
                }
                return Err(StoreError::StoreUnavailable);
            }
            proof {
                assert((#[trigger] pv[j as int]).0 != pv[i as int].0);
            }
            j += 1;
        }
        proof {
            assert forall|a: int, b: int|
                0 <= a < b < pv.len() && a < i + 1 implies (#[trigger] pv[a]).0 != (
            #[trigger] pv[b]).0 by {
                if a == i {
                    assert((#[trigger] pv[b]).0 != pv[i as int].0);
                }
            }
        }
        i += 1;
    }
    if u64::MAX - store.next_blob_id < (pages.len() as u64) {
        proof {
            assert(pre.next_blob_id + pv.len() > u64::MAX);
        }
        return Err(StoreError::StoreUnavailable);
    }
    proof {
        assert(insert_book_ok(pre, book_id@, collection_id@, pv));
    }
    let mut rest = pages;
    let mut imgs: Vec<BookImage> = Vec::new();
    let mut k: usize = 0;
    proof {
        assert(sources_view(rest@) =~= pv.skip(0));
        assert(store@.blobs =~= pre.blobs + new_page_blobs(pre.next_blob_id, pv).subrange(0, 0));
        assert(imgs.deep_view() =~= new_book_pages(pre.next_blob_id, book_id@, pv).subrange(0, 0));
    }
    while k < m
        invariant
            m == pv.len(),
            k <= m,
            pre.next_blob_id + m <= u64::MAX,
            rest@.len() == m - k,
            sources_view(rest@) =~= pv.skip(k as int),
            store@.next_blob_id == pre.next_blob_id + k,
            store@.blobs =~= pre.blobs + new_page_blobs(pre.next_blob_id, pv).subrange(
                0,
                k as int,
            ),
            store@.collections == pre.collections,
            store@.books == pre.books,
            store@.wf(),
            imgs.deep_view() =~= new_book_pages(pre.next_blob_id, book_id@, pv).subrange(
                0,
                k as int,
            ),
        decreases m - k,
    {
        let ghost rest0 = rest@;
        let (pid, src) = rest.remove(0);
        proof {
            assert(sources_view(rest0)[0] == pv.skip(k as int)[0]);
            assert((pid@, src@) == pv[k as int]);
            assert(sources_view(rest@) =~= pv.skip(k + 1)) by {
                assert forall|l: int| 0 <= l < rest@.len() implies sources_view(rest@)[l]
                    == pv.skip(k + 1)[l] by {
                    assert(rest@[l] == rest0[l + 1]);
                    assert(sources_view(rest0)[l + 1] == pv.skip(k as int)[l + 1]);
                }
            }
        }
        let PageSource { mime, content, file_name } = src;
        let ghost s_before = store@;
        let t = match crate::images::create_image_data(
            store,
            ImageData { id: 0, mime, content },
        ) {
            Ok(t) => t,
            Err(_) => {
                proof {
                    assert(crate::store::blob_space_left(s_before));
                    assert(false);
                }
                return Err(StoreError::StoreUnavailable);
            },
        };
        let ghost v0 = imgs@;
        let ghost dv0 = imgs.deep_view();
        imgs.push(
            BookImage { id: pid, book_id: book_id.clone(), file_name, page_number: k, image_id: t },
        );
        proof {
            let target = new_book_pages(pre.next_blob_id, book_id@, pv).subrange(0, k + 1);
            assert(dv0.len() == k as int);
            assert(v0.len() == k as int);
            assert forall|l: int| 0 <= l < imgs@.len() implies imgs.deep_view()[l]
                == target[l] by {
                if l < v0.len() {
                    assert(imgs@[l] == v0[l]);
                    assert(dv0[l] == v0[l].deep_view());
                    assert(dv0[l] == new_book_pages(pre.next_blob_id, book_id@, pv).subrange(
                        0,
                        k as int,
                    )[l]);
                } else {
                    assert(imgs@[l]@ == new_book_pages(pre.next_blob_id, book_id@, pv)[l]);
                }
            }
            assert(imgs.deep_view() =~= target);
            assert(store@.blobs =~= pre.blobs + new_page_blobs(pre.next_blob_id, pv).subrange(
                0,
                k + 1,
            )) by {
                assert(store@.blobs =~= s_before.blobs.push(
                    ImageDataV {
                        id: (pre.next_blob_id + k) as u64,
                        mime: pv[k as int].1.mime,
                        content: pv[k as int].1.content,
                    },
                ));
            }
        }
        k += 1;
    }
    let book = Book { id: book_id, name, collection_id, pages: imgs };
    let ret = book.duplicate();
    store.books.push(book);
    proof {
        assert(new_page_blobs(pre.next_blob_id, pv).subrange(0, m as int) =~= new_page_blobs(
            pre.next_blob_id,
            pv,
        ));
        assert(new_book_pages(pre.next_blob_id, book_id@, pv).subrange(0, m as int)
            =~= new_book_pages(pre.next_blob_id, book_id@, pv));
        assert(ret@ =~= built_book(pre, book_id@, name@, collection_id@, pv));
        assert(store@ =~= insert_book_post(pre, book_id@, name@, collection_id@, pv));
        lemma_insert_book_wf(pre, book_id@, name@, collection_id@, pv);
    }
    Ok(ret)
}

/// The blobs a book creation stores, from the bare sources.
pub open spec fn source_blobs(start: u64, srcs: Seq<PageSourceV>) -> Seq<ImageDataV> {
    Seq::new(
        srcs.len(),
        |i: int| ImageDataV { id: (start + i) as u64, mime: srcs[i].mime, content: srcs[i].content },
    )
}

/// Page `k` of a created book carries source `k`: densely numbered, in
/// input order, referencing the `k`-th freshly stored blob.
pub open spec fn page_matches_source(
    p: BookImageV,
    k: int,
    book_id: Seq<char>,
    start: u64,
    srcs: Seq<PageSourceV>,
) -> bool {
    &&& p.page_number == k
    &&& p.book_id == book_id
    &&& p.file_name == srcs[k].file_name
    &&& p.image_id == (start + k) as u64
}

/// Creates a book under freshly drawn ids: one blob and one page record
/// per source, pages densely numbered in input order.
/// `CollectionNotFound` exactly when the target collection is absent;
/// `StoreUnavailable` only when a drawn id clashes or the blob id space
/// is exhausted.
pub fn create_book(
    store: &mut Store,
    name: String,
    collection_id: String,
    pages: Vec<PageSource>,
) -> (r: Result<Book, StoreError>)
    requires
        old(store)@.wf(),
    ensures
        final(store)@.wf(),
        r == Result::<Book, StoreError>::Err(StoreError::CollectionNotFound)
            <==> !collection_present(old(store)@.collections, collection_id@),
        r is Err ==> final(store)@ == old(store)@,
        r is Err ==> r == Result::<Book, StoreError>::Err(StoreError::CollectionNotFound) || r
            == Result::<Book, StoreError>::Err(StoreError::StoreUnavailable),
        r matches Ok(b) ==> b@.name == name@ && b@.collection_id == collection_id@
            && !book_present(old(store)@.books, b@.id) && b@.pages.len()
            == pages.deep_view().len() && (forall|k: int|
            0 <= k < b@.pages.len() ==> page_matches_source(
                #[trigger] b@.pages[k],
                k,
                b@.id,
                old(store)@.next_blob_id,
                pages.deep_view(),
            )) && final(store)@.books == old(store)@.books.push(b@) && final(store)@.collections
            == old(store)@.collections && final(store)@.next_blob_id == old(store)@.next_blob_id
            + pages.deep_view().len() && final(store)@.blobs == old(store)@.blobs + source_blobs(
            old(store)@.next_blob_id,
            pages.deep_view(),
        ),
{
    let ghost srcs = pages.deep_view();
    let m = pages.len();
    let mut rest = pages;
    let mut zipped: Vec<(String, PageSource)> = Vec::new();
    let mut i: usize = 0;
    while i < m
        invariant
            i <= m,
            rest@.len() == m - i,
            srcs.len() == m,
            forall|l: int| 0 <= l < rest@.len() ==> (#[trigger] rest@[l])@ == srcs[l + i],
            zipped@.len() == i,
            forall|l: int| 0 <= l < i ==> (#[trigger] sources_view(zipped@)[l]).1 == srcs[l],
        decreases m - i,
    {
        let ghost rest0 = rest@;
        let ghost z0 = zipped@;
        let src = rest.remove(0);
        let pid = crate::ids::new_id();
        zipped.push((pid, src));
        proof {
            assert forall|l: int| 0 <= l < rest@.len() implies (#[trigger] rest@[l])@ == srcs[l + i
                + 1] by {
                assert(rest@[l] == rest0[l + 1]);
            }
            assert forall|l: int| 0 <= l < i + 1 implies (
            #[trigger] sources_view(zipped@)[l]).1 == srcs[l] by {
                if l < i {
                    assert(zipped@[l] == z0[l]);
                    assert((#[trigger] sources_view(z0)[l]).1 == srcs[l]);
                } else {
                    assert(zipped@[l].1 == src);
                    assert(src@ == rest0[0]@);
                }
            }
        }
        i += 1;
    }
    let ghost pv = sources_view(zipped@);
    let r = insert_book(store, crate::ids::new_id(), name, collection_id, zipped);
    proof {
        assert(pv.len() == srcs.len());
        assert(forall|l: int| 0 <= l < pv.len() ==> (#[trigger] pv[l]).1 == srcs[l]);
        match &r {
            Ok(b) => {
                assert(source_blobs(old(store)@.next_blob_id, srcs) =~= new_page_blobs(
                    old(store)@.next_blob_id,
                    pv,
                ));
            },
            Err(_) => {},
        }
    }
    r
}

/// Looks a book up by id; `Some` exactly when the id is present. The
/// returned book carries its pages in ascending page order.
pub fn get_book(store: &Store, id: &String) -> (r: Option<Book>)
    ensures
        match r {
            Some(b) => find_book(store@.books, id@) == Some(b@),
            None => find_book(store@.books, id@) is None,
        },
{
    match find_book_idx(&store.books, id) {
        Some(i) => Some(store.books[i].duplicate()),
        None => None,
    }
}

/// The pages of a book, ascending by page number; empty when the book is
/// absent.
pub open spec fn spec_book_pages(s: StoreV, id: Seq<char>) -> Seq<BookImageV> {
    match find_book(s.books, id) {
        Some(b) => b.pages,
        None => Seq::empty(),
    }
}

/// The pages of a book in ascending page order; empty when the book is
/// absent.
pub fn get_book_pages(store: &Store, id: &String) -> (r: Vec<BookImage>)
    ensures
        r.deep_view() == spec_book_pages(store@, id@),
{
    match get_book(store, id) {
        Some(b) => b.pages,
        None => {
            let r: Vec<BookImage> = Vec::new();
            proof {
                assert(r.deep_view() =~= Seq::<BookImageV>::empty());
            }
            r
        },
    }
}

/// The page images of a book, in page order; the same records that
/// `get_book_pages` lists.
pub fn get_book_images(store: &Store, book_id: &String) -> (r: Vec<BookImage>)
    ensures
        r.deep_view() == spec_book_pages(store@, book_id@),
{
    get_book_pages(store, book_id)
}

/// The page of a book with the given page id, if both resolve.
pub open spec fn spec_book_image(
    s: StoreV,
    book_id: Seq<char>,
    img_id: Seq<char>,
) -> Option<BookImageV> {
    match find_book(s.books, book_id) {
        Some(b) => find_page(b.pages, img_id),
        None => None,
    }
}

/// Looks one page of one book up by the pair of ids.
pub fn get_book_image(store: &Store, book_id: &String, img_id: &String) -> (r: Option<BookImage>)
    ensures
        match r {
            Some(p) => spec_book_image(store@, book_id@, img_id@) == Some(p@),
            None => spec_book_image(store@, book_id@, img_id@) is None,
        },
{
    let bi = match find_book_idx(&store.books, book_id) {
        Some(bi) => bi,
        None => {
            return None;
        },
    };
    let b = &store.books[bi];
    proof {
        assert(b@ == store@.books[bi as int]);
    }
    let n = b.pages.len();
    let mut i: usize = 0;
    proof {
        assert(b@.pages.skip(0) =~= b@.pages);
    }
    while i < n
        invariant
            n == b.pages.len(),
            i <= n,
            b@ == store@.books[bi as int],
            bi < store.books.len(),
            find_book(store@.books, book_id@) == Some(b@),
            find_page(b@.pages, img_id@) == find_page(b@.pages.skip(i as int), img_id@),
        decreases n - i,
    {
        proof {
            assert(b@.pages.skip(i as int)[0] == b@.pages[i as int]);
            assert(b@.pages.skip(i as int).drop_first() =~= b@.pages.skip(i + 1));
        }
        if b.pages[i].id == *img_id {
            return Some(b.pages[i].duplicate());
        }
        i += 1;
    }
    proof {
        assert(b@.pages.skip(n as int) =~= Seq::<BookImageV>::empty());
    }
    None
}

/// Books in ascending title order.
pub open spec fn sorted_by_name(s: Seq<BookV>) -> bool {
    forall|i: int, j: int|
        0 <= i < j < s.len() ==> crate::order::seq_char_le(
            (#[trigger] s[i]).name,
            (#[trigger] s[j]).name,
        )
}

/// Sorts books by title, ascending, by insertion.
fn sort_books_by_name(v: Vec<Book>) -> (r: Vec<Book>)
    ensures
        sorted_by_name(r.deep_view()),
        r.deep_view().to_multiset() == v.deep_view().to_multiset(),
{
    let n = v.len();
    let mut out: Vec<Book> = Vec::new();
    let mut i: usize = 0;
    proof {
        assert(out.deep_view() =~= Seq::<BookV>::empty());
        assert(v.deep_view().subrange(0, 0) =~= Seq::<BookV>::empty());
        Seq::<BookV>::empty().to_multiset_ensures();
    }
    while i < n
        invariant
            n == v.len(),
            i <= n,
            sorted_by_name(out.deep_view()),
            out.deep_view().to_multiset() == v.deep_view().subrange(0, i as int).to_multiset(),
        decreases n - i,
    {
        let b = v[i].duplicate();
        proof {
            assert(b@ == v.deep_view()[i as int]);
        }
        let mut j: usize = 0;
        while j < out.len() && crate::order::str_le(out[j].name.as_str(), b.name.as_str())
            invariant
                j <= out.len(),
                n == v.len(),
                i < n,
                b@ == v.deep_view()[i as int],
                sorted_by_name(out.deep_view()),
                out.deep_view().to_multiset() == v.deep_view().subrange(
                    0,
                    i as int,
                ).to_multiset(),
                forall|l: int|
                    0 <= l < j ==> crate::order::seq_char_le(
                        (#[trigger] out.deep_view()[l]).name,
                        b@.name,
                    ),
            decreases out.len() - j,
        {
            proof {
                assert(out.deep_view()[j as int].name == out@[j as int]@.name);
            }
            j += 1;
        }
        let ghost out0 = out.deep_view();
        let ghost v0 = out@;
        let ghost bk = b;
        let ghost bv = b@;
        proof {
            if j < out.len() {
                crate::order::lemma_seq_char_le_total(out0[j as int].name, bv.name);
            }
        }
        out.insert(j, b);
        proof {
            assert forall|l: int| 0 <= l < out@.len() implies out.deep_view()[l] == out0.insert(
                j as int,
                bv,
            )[l] by {
                v0.insert_ensures(j as int, bk);
                out0.insert_ensures(j as int, bv);
                if l < j {
                    assert(out@[l] == v0[l]);
                    assert(out0[l] == v0[l].deep_view());
                } else if l == j {
                    assert(out@[l] == bk);
                } else {
                    assert(out@[l] == v0[l - 1]);
                    assert(out0[l - 1] == v0[l - 1].deep_view());
                }
            }
            assert(out.deep_view() =~= out0.insert(j as int, bv));
            out0.insert_ensures(j as int, bv);
            // Sortedness around the insertion point.
            assert forall|p: int, q: int|
                0 <= p < q < out.deep_view().len() implies crate::order::seq_char_le(
                (#[trigger] out.deep_view()[p]).name,
                (#[trigger] out.deep_view()[q]).name,
            ) by {
                let dv = out.deep_view();
                let jj = j as int;
                if p < jj && q < jj {
                    assert(dv[p] == out0[p] && dv[q] == out0[q]);
                } else if p < jj && q == jj {
                    assert(dv[p] == out0[p] && dv[q] == bv);
                } else if p < jj && q > jj {
                    assert(dv[p] == out0[p] && dv[q] == out0[q - 1]);
                } else if p == jj {
                    assert(dv[p] == bv && dv[q] == out0[q - 1]);
                    if q - 1 == jj {
                        crate::order::lemma_seq_char_le_total(out0[jj].name, bv.name);
                    } else {
                        crate::order::lemma_seq_char_le_total(out0[jj].name, bv.name);
                        crate::order::lemma_seq_char_le_trans(
                            bv.name,
                            out0[jj].name,
                            out0[q - 1].name,
                        );
                    }
                } else {
                    assert(dv[p] == out0[p - 1] && dv[q] == out0[q - 1]);
                }
            }
            // One more occurrence, nothing else.
            crate::order::lemma_insert_to_multiset(out0, j as int, bv);
            assert(v.deep_view().subrange(0, i + 1).drop_last() =~= v.deep_view().subrange(
                0,
                i as int,
            ));
            assert(v.deep_view().subrange(0, i + 1) =~= v.deep_view().subrange(
                0,
                i as int,
            ).push(bv));
            v.deep_view().subrange(0, i as int).to_multiset_ensures();
        }
        i += 1;
    }
    proof {
        assert(v.deep_view().subrange(0, n as int) =~= v.deep_view());
    }
    out
}

/// The books of one collection, ordered by title ascending: the result
/// is sorted and holds exactly the collection's books.
pub fn get_books_by_collection(store: &Store, collection_id: &String) -> (r: Vec<Book>)
    ensures
        sorted_by_name(r.deep_view()),
        r.deep_view().to_multiset() == store@.books.filter(
            |b: BookV| b.collection_id == collection_id@,
        ).to_multiset(),
{
    let n = store.books.len();
    let mut picked: Vec<Book> = Vec::new();
    let mut i: usize = 0;
    while i < n
        invariant
            n == store.books.len(),
            i <= n,
            picked.deep_view() =~= store@.books.subrange(0, i as int).filter(
                |b: BookV| b.collection_id == collection_id@,
            ),
        decreases n - i,
    {
        proof {
            crate::store::lemma_filter_take_step(
                store@.books,
                |b: BookV| b.collection_id == collection_id@,
                i as int,
            );
        }
        let b = &store.books[i];
        proof {
            assert(b@ == store@.books[i as int]);
        }
        if b.collection_id == *collection_id {
            picked.push(b.duplicate());
        }
        proof {
            assert(picked.deep_view() =~= store@.books.subrange(0, i + 1).filter(
                |b: BookV| b.collection_id == collection_id@,
            ));
        }
        i += 1;
    }
    proof {
        assert(store@.books.subrange(0, n as int) =~= store@.books);
    }
    sort_books_by_name(picked)
}

/// Book `b` owns blob `t` through one of its pages.
pub open spec fn book_owns_blob(b: BookV, t: u64) -> bool {
    exists|k: int| 0 <= k < b.pages.len() && (#[trigger] b.pages[k]).image_id == t
}

/// The store after a cascade delete of one book: its page blobs go
/// first, then its pages with the book record itself.
pub open spec fn delete_book_post(s: StoreV, id: Seq<char>) -> StoreV {
    match find_book(s.books, id) {
        Some(b) => StoreV {
            blobs: s.blobs.filter(|bl: ImageDataV| !book_owns_blob(b, bl.id)),
            next_blob_id: s.next_blob_id,
            collections: s.collections,
            books: s.books.filter(|bk: BookV| bk.id != id),
        },
        None => s,
    }
}

/// Whether one of `b`'s pages references blob `t`.
fn book_references(b: &Book, t: u64) -> (r: bool)
    ensures
        r == book_owns_blob(b@, t),
{
    let n = b.pages.len();
    let mut i: usize = 0;
    while i < n
        invariant
            n == b.pages.len(),
            i <= n,
            forall|l: int| 0 <= l < i ==> (#[trigger] b@.pages[l]).image_id != t,
        decreases n - i,
    {
        if b.pages[i].image_id == t {
            proof {
                assert((#[trigger] b@.pages[i as int]).image_id == t);
            }
            return true;
        }
        i += 1;
    }
    proof {
        if book_owns_blob(b@, t) {
            let k = choose|k: int|
                0 <= k < b@.pages.len() && (#[trigger] b@.pages[k]).image_id == t;
            assert(false);
        }
    }
    false
}

/// A book's cascade delete keeps the store well-formed.
pub proof fn lemma_delete_book_wf(s: StoreV, id: Seq<char>)
    requires
        s.wf(),
        book_present(s.books, id),
    ensures
        delete_book_post(s, id).wf(),
{
    let bi = choose|bi: int| 0 <= bi < s.books.len() && (#[trigger] s.books[bi]).id == id;
    lemma_find_book_ensures(s.books, id);
    let b = find_book(s.books, id).unwrap();
    let fi = choose|fi: int| 0 <= fi < s.books.len() && s.books[fi] == b;
    let bpred = |bl: ImageDataV| !book_owns_blob(b, bl.id);
    let kpred = |bk: BookV| bk.id != id;
    let t = delete_book_post(s, id);
    let rblob = |a: ImageDataV, c: ImageDataV| a.id != c.id;
    assert forall|i: int, j: int| 0 <= i < j < s.blobs.len() implies #[trigger] rblob(
        s.blobs[i],
        s.blobs[j],
    ) by {
        assert(s.blobs[i].id != s.blobs[j].id);
    }
    crate::store::lemma_filter_preserves_pairwise(s.blobs, bpred, rblob);
    assert forall|i: int, j: int| 0 <= i < j < t.blobs.len() implies (#[trigger] t.blobs[i]).id
        != (#[trigger] t.blobs[j]).id by {
        assert(rblob(t.blobs[i], t.blobs[j]));
    }
    let rbook = |a: BookV, c: BookV| crate::store::book_pair_ok(a, c);
    assert forall|i: int, j: int| 0 <= i < j < s.books.len() implies #[trigger] rbook(
        s.books[i],
        s.books[j],
    ) by {
        assert(crate::store::book_pair_ok(s.books[i], s.books[j]));
    }
    crate::store::lemma_filter_preserves_pairwise(s.books, kpred, rbook);
    assert forall|i: int, j: int| 0 <= i < j < t.books.len() implies crate::store::book_pair_ok(
        #[trigger] t.books[i],
        #[trigger] t.books[j],
    ) by {
        assert(rbook(t.books[i], t.books[j]));
    }
    crate::store::lemma_filter_sub(s.blobs, bpred);
    assert forall|i: int| 0 <= i < t.blobs.len() implies (#[trigger] t.blobs[i]).id
        < t.next_blob_id by {
        let j = choose|j: int| 0 <= j < s.blobs.len() && s.blobs[j] == t.blobs[i];
        assert(s.blobs[j].id < s.next_blob_id);
    }
    crate::store::lemma_filter_sub(s.books, kpred);
    assert forall|i: int| 0 <= i < t.collections.len() implies thumb_ok(
        t.blobs,
        #[trigger] t.collections[i],
    ) by {
        let c = s.collections[i];
        assert(thumb_ok(s.blobs, c));
        match c.thumbnail_id {
            Some(tb) => {
                let bj = choose|bj: int|
                    0 <= bj < s.blobs.len() && (#[trigger] s.blobs[bj]).id == tb;
                assert(bpred(s.blobs[bj])) by {
                    if book_owns_blob(b, tb) {
                        assert(crate::store::coll_book_ok(s.collections[i], s.books[fi]));
                        let k = choose|k: int|
                            0 <= k < b.pages.len() && (#[trigger] b.pages[k]).image_id == tb;
                        assert(false);
                    }
                }
                s.blobs.lemma_filter_contains(bpred, bj);
                let m = choose|m: int|
                    0 <= m < t.blobs.len() && #[trigger] t.blobs[m] == s.blobs[bj];
                assert(blob_present(t.blobs, tb));
            },
            None => {},
        }
    }
    assert forall|i: int| 0 <= i < t.books.len() implies book_ok(
        t.collections,
        t.blobs,
        #[trigger] t.books[i],
    ) by {
        let b2 = t.books[i];
        s.books.lemma_filter_pred(kpred, i);
        let bi2 = choose|bi2: int| 0 <= bi2 < s.books.len() && s.books[bi2] == b2;
        assert(book_ok(s.collections, s.blobs, b2));
        assert forall|k: int| 0 <= k < b2.pages.len() implies #[trigger] page_ok(
            t.blobs,
            b2,
            k,
        ) by {
            assert(page_ok(s.blobs, b2, k));
            let pid = b2.pages[k].image_id;
            let bj = choose|bj: int| 0 <= bj < s.blobs.len() && (#[trigger] s.blobs[bj]).id == pid;
            assert(bpred(s.blobs[bj])) by {
                if book_owns_blob(b, pid) {
                    let l = choose|l: int|
                        0 <= l < b.pages.len() && (#[trigger] b.pages[l]).image_id == pid;
                    assert(b2.id != id);
                    assert(bi2 != fi);
                    if bi2 < fi {
                        assert(crate::store::book_pair_ok(s.books[bi2], s.books[fi]));
                    } else {
                        assert(crate::store::book_pair_ok(s.books[fi], s.books[bi2]));
                    }
                    assert(false);
                }
            }
            s.blobs.lemma_filter_contains(bpred, bj);
            let m2 = choose|m2: int|
                0 <= m2 < t.blobs.len() && #[trigger] t.blobs[m2] == s.blobs[bj];
            assert(blob_present(t.blobs, pid));
        }
    }
    assert forall|i: int, j: int|
        0 <= i < t.collections.len() && 0 <= j < t.books.len() implies crate::store::coll_book_ok(
        #[trigger] t.collections[i],
        #[trigger] t.books[j],
    ) by {
        let bj2 = choose|bj2: int| 0 <= bj2 < s.books.len() && s.books[bj2] == t.books[j];
        assert(crate::store::coll_book_ok(s.collections[i], s.books[bj2]));
    }
}

/// Deletes a book and cascades: every page blob goes with the pages and
/// the book record. `NotFound` exactly when the book is absent.
pub fn delete_book(store: &mut Store, id: &String) -> (r: Result<(), StoreError>)
    requires
        old(store)@.wf(),
    ensures
        final(store)@.wf(),
        r is Ok <==> book_present(old(store)@.books, id@),
        r is Err ==> r == Result::<(), StoreError>::Err(StoreError::NotFound) && final(store)@
            == old(store)@,
        r is Ok ==> final(store)@ == delete_book_post(old(store)@, id@),
{
    let ghost pre = store@;
    let bi = match find_book_idx(&store.books, id) {
        Some(bi) => bi,
        None => {
            return Err(StoreError::NotFound);
        },
    };
    let ghost bdel = pre.books[bi as int];
    let nb = store.blobs.len();
    let mut new_blobs: Vec<ImageData> = Vec::new();
    let mut i: usize = 0;
    while i < nb
        invariant
            nb == store.blobs.len(),
            i <= nb,
            store@ == pre,
            bi < store.books.len(),
            bdel == pre.books[bi as int],
            new_blobs.deep_view() =~= pre.blobs.subrange(0, i as int).filter(
                |bl: ImageDataV| !book_owns_blob(bdel, bl.id),
            ),
        decreases nb - i,
    {
        proof {
            crate::store::lemma_filter_take_step(
                pre.blobs,
                |bl: ImageDataV| !book_owns_blob(bdel, bl.id),
                i as int,
            );
        }
        let t = store.blobs[i].id;
        let keep = !book_references(&store.books[bi], t);
        if keep {
            new_blobs.push(store.blobs[i].duplicate());
        }
        proof {
            assert(new_blobs.deep_view() =~= pre.blobs.subrange(0, i + 1).filter(
                |bl: ImageDataV| !book_owns_blob(bdel, bl.id),
            ));
        }
        i += 1;
    }
    let nk = store.books.len();
    let mut new_books: Vec<Book> = Vec::new();
    let mut k: usize = 0;
    while k < nk
        invariant
            nk == store.books.len(),
            k <= nk,
            store@ == pre,
            new_books.deep_view() =~= pre.books.subrange(0, k as int).filter(
                |bk: BookV| bk.id != id@,
            ),
        decreases nk - k,
    {
        proof {
            crate::store::lemma_filter_take_step(pre.books, |bk: BookV| bk.id != id@, k as int);
        }
        let b = &store.books[k];
        proof {
            assert(b@ == pre.books[k as int]);
        }
        if !(b.id == *id) {
            new_books.push(b.duplicate());
        }
        proof {
            assert(new_books.deep_view() =~= pre.books.subrange(0, k + 1).filter(
                |bk: BookV| bk.id != id@,
            ));
        }
        k += 1;
    }
    store.blobs = new_blobs;
    store.books = new_books;
    proof {
        assert(pre.blobs.subrange(0, nb as int) =~= pre.blobs);
        assert(pre.books.subrange(0, nk as int) =~= pre.books);
        assert(find_book(pre.books, id@) == Some(bdel));
        assert(store@ =~= delete_book_post(pre, id@));
        lemma_delete_book_wf(pre, id@);
    }
    Ok(())
}

} // verus!
