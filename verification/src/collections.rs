use vstd::prelude::*;

use crate::errors::StoreError;
use crate::images::{ImageData, ImageDataV};
use crate::store::{
    blob_present, book_ok, collection_present, page_ok, thumb_ok, Store, StoreV,
};

verus! {

/// A named folder node in the collection forest. `parent_id` is a
/// non-owning lookup key: `None` marks a root. `thumbnail_id` points at
/// the blob holding the folder's thumbnail, if one was set.
#[derive(Debug)]
pub struct Collection {
    pub id: String,
    pub name: String,
    pub parent_id: Option<String>,
    pub thumbnail_id: Option<u64>,
}

/// The mathematical value of a [`Collection`].
#[verifier::ext_equal]
pub ghost struct CollectionV {
    pub id: Seq<char>,
    pub name: Seq<char>,
    pub parent_id: Option<Seq<char>>,
    pub thumbnail_id: Option<u64>,
}

impl View for Collection {
    type V = CollectionV;

    open spec fn view(&self) -> CollectionV {
        CollectionV {
            id: self.id@,
            name: self.name@,
            parent_id: opt_str_view(self.parent_id),
            thumbnail_id: self.thumbnail_id,
        }
    }
}

impl DeepView for Collection {
    type V = CollectionV;

    open spec fn deep_view(&self) -> CollectionV {
        self.view()
    }
}

impl Collection {
    /// An explicit copy with a contract; a derived clone would promise
    /// nothing to the verifier.
    pub fn duplicate(&self) -> (r: Collection)
        ensures
            r@ == self@,
    {
        Collection {
            id: self.id.clone(),
            name: self.name.clone(),
            parent_id: match &self.parent_id {
                Some(p) => Some(p.clone()),
                None => None,
            },
            thumbnail_id: self.thumbnail_id,
        }
    }
}

/// The first collection with the given id, in store order.
pub open spec fn find_collection(cs: Seq<CollectionV>, id: Seq<char>) -> Option<CollectionV>
    decreases cs.len(),
{
    if cs.len() == 0 {
        None
    } else if cs[0].id == id {
        Some(cs[0])
    } else {
        find_collection(cs.drop_first(), id)
    }
}

pub proof fn lemma_find_collection_ensures(cs: Seq<CollectionV>, id: Seq<char>)
    ensures
        match find_collection(cs, id) {
            Some(c) => c.id == id && cs.contains(c),
            None => forall|i: int| 0 <= i < cs.len() ==> (#[trigger] cs[i]).id != id,
        },
    decreases cs.len(),
{
    if cs.len() > 0 && cs[0].id != id {
        lemma_find_collection_ensures(cs.drop_first(), id);
        match find_collection(cs.drop_first(), id) {
            Some(c) => {
                let i = choose|i: int| 0 <= i < cs.drop_first().len() && cs.drop_first()[i] == c;
                assert(cs[i + 1] == c);
            },
            None => {
                assert forall|i: int| 0 <= i < cs.len() implies (#[trigger] cs[i]).id != id by {
                    if i > 0 {
                        assert(cs.drop_first()[i - 1] == cs[i]);
                    }
                }
            },
        }
    }
}

/// The value of an optional owned id.
pub open spec fn opt_str_view(o: Option<String>) -> Option<Seq<char>> {
    match o {
        Some(p) => Some(p@),
        None => None,
    }
}

/// Whether two optional ids hold the same value.
pub fn opt_str_eq(a: &Option<String>, b: &Option<String>) -> (r: bool)
    ensures
        r == (opt_str_view(*a) == opt_str_view(*b)),
{
    match (a, b) {
        (Some(x), Some(y)) => *x == *y,
        (None, None) => true,
        _ => false,
    }
}

/// A supplied parent either is absent or resolves.
pub open spec fn parent_resolves(s: StoreV, parent_id: Option<Seq<char>>) -> bool {
    match parent_id {
        Some(p) => collection_present(s.collections, p),
        None => true,
    }
}

/// The store after appending one collection.
pub open spec fn add_collection(s: StoreV, c: CollectionV) -> StoreV {
    StoreV {
        blobs: s.blobs,
        next_blob_id: s.next_blob_id,
        collections: s.collections.push(c),
        books: s.books,
    }
}

/// Appending a fresh, thumbnail-less collection with a resolving parent
/// keeps the store well-formed.
pub proof fn lemma_add_collection_wf(s: StoreV, c: CollectionV)
    requires
        s.wf(),
        !collection_present(s.collections, c.id),
        parent_resolves(s, c.parent_id),
        c.thumbnail_id is None,
    ensures
        add_collection(s, c).wf(),
{
    let t = add_collection(s, c);
    assert forall|i: int, j: int| 0 <= i < j < t.collections.len() implies crate::store::coll_pair_ok(
        #[trigger] t.collections[i],
        #[trigger] t.collections[j],
    ) by {
        if j < s.collections.len() {
            assert(t.collections[i] == s.collections[i] && t.collections[j] == s.collections[j]);
        } else {
            assert(t.collections[j] == c);
            assert(t.collections[i] == s.collections[i]);
            assert(s.collections[i].id != c.id);
        }
    }
    assert forall|i: int| 0 <= i < t.collections.len() implies #[trigger] crate::store::parent_ok_at(
        t.collections,
        i,
    ) by {
        if i < s.collections.len() {
            assert(crate::store::parent_ok_at(s.collections, i));
            assert(t.collections[i] == s.collections[i]);
            match s.collections[i].parent_id {
                Some(p) => {
                    let j = choose|j: int|
                        0 <= j < i && (#[trigger] s.collections[j]).id == p;
                    assert(t.collections[j] == s.collections[j]);
                },
                None => {},
            }
        } else {
            assert(t.collections[i] == c);
            match c.parent_id {
                Some(p) => {
                    let j = choose|j: int|
                        0 <= j < s.collections.len() && (#[trigger] s.collections[j]).id == p;
                    assert(t.collections[j] == s.collections[j]);
                },
                None => {},
            }
        }
    }
    assert forall|i: int| 0 <= i < t.collections.len() implies thumb_ok(
        t.blobs,
        #[trigger] t.collections[i],
    ) by {
        if i < s.collections.len() {
            assert(t.collections[i] == s.collections[i]);
            assert(thumb_ok(s.blobs, s.collections[i]));
        } else {
            assert(t.collections[i] == c);
        }
    }
    assert forall|i: int| 0 <= i < t.books.len() implies book_ok(
        t.collections,
        t.blobs,
        #[trigger] t.books[i],
    ) by {
        let b = s.books[i];
        assert(book_ok(s.collections, s.blobs, b));
        let j = choose|j: int|
            0 <= j < s.collections.len() && (#[trigger] s.collections[j]).id == b.collection_id;
        assert(t.collections[j] == s.collections[j]);
    }
    assert forall|i: int, j: int|
        0 <= i < t.collections.len() && 0 <= j < t.books.len() implies crate::store::coll_book_ok(
        #[trigger] t.collections[i],
        #[trigger] t.books[j],
    ) by {
        if i < s.collections.len() {
            assert(t.collections[i] == s.collections[i] && t.books[j] == s.books[j]);
        } else {
            assert(t.collections[i] == c);
        }
    }
}

/// The index of the collection with the given id, if present.
pub(crate) fn find_collection_idx(cs: &Vec<Collection>, id: &String) -> (r: Option<usize>)
    ensures
        match r {
            Some(i) => i < cs.len() && cs.deep_view()[i as int].id == id@ && find_collection(
                cs.deep_view(),
                id@,
            ) == Some(cs.deep_view()[i as int]) && collection_present(cs.deep_view(), id@),
            None => find_collection(cs.deep_view(), id@) is None && !collection_present(
                cs.deep_view(),
                id@,
            ),
        },
{
    let n = cs.len();
    let mut i: usize = 0;
    proof {
        assert(cs.deep_view().skip(0) =~= cs.deep_view());
    }
    while i < n
        invariant
            n == cs.len(),
            i <= n,
            find_collection(cs.deep_view(), id@) == find_collection(
                cs.deep_view().skip(i as int),
                id@,
            ),
            forall|j: int| 0 <= j < i ==> (#[trigger] cs.deep_view()[j]).id != id@,
        decreases n - i,
    {
        proof {
            assert(cs.deep_view().skip(i as int)[0] == cs.deep_view()[i as int]);
            assert(cs.deep_view().skip(i as int).drop_first() =~= cs.deep_view().skip(i + 1));
        }
        if cs[i].id == *id {
            return Some(i);
        }
        i += 1;
    }
    proof {
        assert(cs.deep_view().skip(n as int) =~= Seq::<CollectionV>::empty());
    }
    None
}

/// The collection a new record would make, viewed.
pub open spec fn fresh_collection(
    id: Seq<char>,
    name: Seq<char>,
    parent_id: Option<Seq<char>>,
) -> CollectionV {
    CollectionV { id, name, parent_id, thumbnail_id: None }
}

/// Files a new collection under a caller-chosen id. `InvalidParent`
/// exactly when a supplied parent does not resolve; `StoreUnavailable`
/// exactly when the id is already taken.
pub fn insert_collection(
    store: &mut Store,
    id: String,
    name: String,
    parent_id: Option<String>,
) -> (r: Result<Collection, StoreError>)
    requires
        old(store)@.wf(),
    ensures
        final(store)@.wf(),
        r == Result::<Collection, StoreError>::Err(StoreError::InvalidParent) <==> !parent_resolves(
            old(store)@,
            opt_str_view(parent_id),
        ),
        r == Result::<Collection, StoreError>::Err(StoreError::StoreUnavailable) <==> parent_resolves(
            old(store)@,
            opt_str_view(parent_id),
        ) && collection_present(old(store)@.collections, id@),
        r is Err ==> final(store)@ == old(store)@,
        r is Err ==> r == Result::<Collection, StoreError>::Err(StoreError::InvalidParent) || r
            == Result::<Collection, StoreError>::Err(StoreError::StoreUnavailable),
        r matches Ok(c) ==> c@ == fresh_collection(id@, name@, opt_str_view(parent_id))
            && final(store)@ == add_collection(old(store)@, c@),
{
    match &parent_id {
        Some(p) => {
            if find_collection_idx(&store.collections, p).is_none() {
                return Err(StoreError::InvalidParent);
            }
        },
        None => {},
    }
    if find_collection_idx(&store.collections, &id).is_some() {
        return Err(StoreError::StoreUnavailable);
    }
    let c = Collection { id, name, parent_id, thumbnail_id: None };
    let r = c.duplicate();
    store.collections.push(c);
    proof {
        assert(store@.collections =~= old(store)@.collections.push(r@));
        assert(store@ =~= add_collection(old(store)@, r@));
        lemma_add_collection_wf(old(store)@, r@);
    }
    Ok(r)
}

/// Creates a collection under a freshly drawn id. `InvalidParent`
/// exactly when a supplied parent does not resolve; `StoreUnavailable`
/// only when the drawn id is already taken.
pub fn create_collection(store: &mut Store, name: String, parent_id: Option<String>) -> (r: Result<
    Collection,
    StoreError,
>)
    requires
        old(store)@.wf(),
    ensures
        final(store)@.wf(),
        r == Result::<Collection, StoreError>::Err(StoreError::InvalidParent) <==> !parent_resolves(
            old(store)@,
            opt_str_view(parent_id),
        ),
        r is Err ==> final(store)@ == old(store)@,
        r is Err ==> r == Result::<Collection, StoreError>::Err(StoreError::InvalidParent) || r
            == Result::<Collection, StoreError>::Err(StoreError::StoreUnavailable),
        r matches Ok(c) ==> c@.name == name@ && c@.parent_id == opt_str_view(parent_id)
            && c@.thumbnail_id is None && !collection_present(old(store)@.collections, c@.id)
            && final(store)@ == add_collection(old(store)@, c@),
{
    let id = crate::ids::new_id();
    insert_collection(store, id, name, parent_id)
}

/// Looks a collection up by id; `Some` exactly when the id is present.
pub fn get_collection(store: &Store, id: &String) -> (r: Option<Collection>)
    ensures
        match r {
            Some(c) => find_collection(store@.collections, id@) == Some(c@),
            None => find_collection(store@.collections, id@) is None,
        },
{
    match find_collection_idx(&store.collections, id) {
        Some(i) => Some(store.collections[i].duplicate()),
        None => None,
    }
}

/// The collection sequence with the thumbnail of the collection `cid`
/// set to blob `t`.
pub open spec fn set_thumb_in(cs: Seq<CollectionV>, cid: Seq<char>, t: u64) -> Seq<CollectionV> {
    cs.map_values(
        |c: CollectionV|
            if c.id == cid {
                CollectionV { id: c.id, name: c.name, parent_id: c.parent_id, thumbnail_id: Some(t) }
            } else {
                c
            },
    )
}

/// The store after a thumbnail swap: the new blob is stored and wired up
/// first; the previous thumbnail blob, if any, is removed last.
pub open spec fn set_thumbnail_post(
    s: StoreV,
    cid: Seq<char>,
    mime: Seq<char>,
    content: Seq<u8>,
) -> StoreV {
    let s1 = crate::store::put_blob(s, mime, content);
    let s2 = StoreV {
        blobs: s1.blobs,
        next_blob_id: s1.next_blob_id,
        collections: set_thumb_in(s1.collections, cid, s.next_blob_id),
        books: s1.books,
    };
    match find_collection(s.collections, cid) {
        Some(c) => match c.thumbnail_id {
            Some(t0) => crate::store::remove_blob(s2, t0),
            None => s2,
        },
        None => s2,
    }
}

/// Rewiring one collection's thumbnail to a present, unreferenced blob
/// keeps the store well-formed, and leaves the previous thumbnail blob
/// unreferenced.
pub proof fn lemma_set_thumb_wf(s1: StoreV, cid: Seq<char>, t: u64)
    requires
        s1.wf(),
        collection_present(s1.collections, cid),
        blob_present(s1.blobs, t),
        !s1.blob_referenced(t),
    ensures
        (StoreV {
            blobs: s1.blobs,
            next_blob_id: s1.next_blob_id,
            collections: set_thumb_in(s1.collections, cid, t),
            books: s1.books,
        }).wf(),
        match find_collection(s1.collections, cid) {
            Some(c) => match c.thumbnail_id {
                Some(t0) => !(StoreV {
                    blobs: s1.blobs,
                    next_blob_id: s1.next_blob_id,
                    collections: set_thumb_in(s1.collections, cid, t),
                    books: s1.books,
                }).blob_referenced(t0),
                None => true,
            },
            None => true,
        },
{
    let cs2 = set_thumb_in(s1.collections, cid, t);
    let s2 = StoreV {
        blobs: s1.blobs,
        next_blob_id: s1.next_blob_id,
        collections: cs2,
        books: s1.books,
    };
    assert(cs2.len() == s1.collections.len());
    assert forall|i: int| 0 <= i < cs2.len() implies (#[trigger] cs2[i]).id
        == s1.collections[i].id && cs2[i].parent_id == s1.collections[i].parent_id && (
    s1.collections[i].id != cid ==> cs2[i] == s1.collections[i]) && (s1.collections[i].id == cid
        ==> cs2[i].thumbnail_id == Some(t)) by {}
    assert forall|i: int, j: int| 0 <= i < j < cs2.len() implies crate::store::coll_pair_ok(
        #[trigger] cs2[i],
        #[trigger] cs2[j],
    ) by {
        assert(crate::store::coll_pair_ok(s1.collections[i], s1.collections[j]));
        if s1.collections[i].id == cid {
            match s1.collections[j].thumbnail_id {
                Some(tj) => {
                    assert(thumb_ok(s1.blobs, s1.collections[j]));
                    assert(tj != t);
                },
                None => {},
            }
        } else if s1.collections[j].id == cid {
            match s1.collections[i].thumbnail_id {
                Some(ti) => {
                    assert(ti != t);
                },
                None => {},
            }
        }
    }
    assert forall|i: int| 0 <= i < cs2.len() implies #[trigger] crate::store::parent_ok_at(
        cs2,
        i,
    ) by {
        assert(crate::store::parent_ok_at(s1.collections, i));
        match s1.collections[i].parent_id {
            Some(p) => {
                let j = choose|j: int| 0 <= j < i && (#[trigger] s1.collections[j]).id == p;
                assert(cs2[j].id == p);
            },
            None => {},
        }
    }
    assert forall|i: int| 0 <= i < cs2.len() implies thumb_ok(s2.blobs, #[trigger] cs2[i]) by {
        assert(thumb_ok(s1.blobs, s1.collections[i]));
    }
    assert forall|i: int| 0 <= i < s2.books.len() implies book_ok(
        s2.collections,
        s2.blobs,
        #[trigger] s2.books[i],
    ) by {
        let b = s1.books[i];
        assert(book_ok(s1.collections, s1.blobs, b));
        let j = choose|j: int|
            0 <= j < s1.collections.len() && (#[trigger] s1.collections[j]).id == b.collection_id;
        assert(cs2[j].id == b.collection_id);
    }
    assert forall|i: int, j: int|
        0 <= i < cs2.len() && 0 <= j < s2.books.len() implies crate::store::coll_book_ok(
        #[trigger] cs2[i],
        #[trigger] s2.books[j],
    ) by {
        assert(crate::store::coll_book_ok(s1.collections[i], s1.books[j]));
        if s1.collections[i].id == cid {
            let b = s1.books[j];
            assert(book_ok(s1.collections, s1.blobs, b));
            assert forall|k: int| 0 <= k < b.pages.len() implies (#[trigger] b.pages[k]).image_id
                != t by {
                assert(page_ok(s1.blobs, b, k));
                if b.pages[k].image_id == t {
                    assert(s1.blob_referenced(t));
                }
            }
        }
    }
    match find_collection(s1.collections, cid) {
        Some(c) => {
            lemma_find_collection_ensures(s1.collections, cid);
            match c.thumbnail_id {
                Some(t0) => {
                    let ci = choose|ci: int|
                        0 <= ci < s1.collections.len() && s1.collections[ci] == c;
                    assert(s1.blob_referenced(t0)) by {
                        assert((#[trigger] s1.collections[ci]).thumbnail_id == Some(t0));
                    }
                    assert(t0 != t);
                    assert forall|i: int| 0 <= i < cs2.len() implies (
                    #[trigger] cs2[i]).thumbnail_id != Some(t0) by {
                        if s1.collections[i].id == cid {
                        } else {
                            if i < ci {
                                assert(crate::store::coll_pair_ok(
                                    s1.collections[i],
                                    s1.collections[ci],
                                ));
                            } else if ci < i {
                                assert(crate::store::coll_pair_ok(
                                    s1.collections[ci],
                                    s1.collections[i],
                                ));
                            } else {
                                assert(s1.collections[i].id == cid);
                            }
                        }
                    }
                    assert forall|i: int, k: int|
                        0 <= i < s2.books.len() && 0 <= k < s2.books[i].pages.len() implies (
                    #[trigger] s2.books[i].pages[k]).image_id != t0 by {
                        assert(crate::store::coll_book_ok(s1.collections[ci], s1.books[i]));
                    }
                },
                None => {},
            }
        },
        None => {},
    }
}

/// Some collection names `cid` as its parent.
pub open spec fn has_child(cs: Seq<CollectionV>, cid: Seq<char>) -> bool {
    exists|i: int| 0 <= i < cs.len() && (#[trigger] cs[i]).parent_id == Some(cid)
}

/// Whether a deletion request is honoured, and with which failure it is
/// not: absent collections report `NotFound`, populated ones
/// `HasChildren`.
pub open spec fn delete_collection_check(s: StoreV, cid: Seq<char>) -> Result<(), StoreError> {
    if find_collection(s.collections, cid) is None {
        Err(StoreError::NotFound)
    } else if has_child(s.collections, cid) {
        Err(StoreError::HasChildren)
    } else {
        Ok(())
    }
}

/// Blob `t` exists only because of collection `cid`: it is its thumbnail
/// or a page blob of one of its books.
pub open spec fn condemned_blob(s: StoreV, cid: Seq<char>, t: u64) -> bool {
    ||| match find_collection(s.collections, cid) {
        Some(c) => c.thumbnail_id == Some(t),
        None => false,
    }
    ||| exists|i: int, k: int|
        0 <= i < s.books.len() && (#[trigger] s.books[i]).collection_id == cid && 0 <= k
            < s.books[i].pages.len() && (#[trigger] s.books[i].pages[k]).image_id == t
}

/// The store after a cascade delete of collection `cid`: the collection,
/// its books, their pages, and every blob they owned are gone.
pub open spec fn delete_collection_post(s: StoreV, cid: Seq<char>) -> StoreV {
    StoreV {
        blobs: s.blobs.filter(|b: ImageDataV| !condemned_blob(s, cid, b.id)),
        next_blob_id: s.next_blob_id,
        collections: s.collections.filter(|c: CollectionV| c.id != cid),
        books: s.books.filter(|b: crate::books::BookV| b.collection_id != cid),
    }
}

/// Whether any collection names `cid` as its parent.
fn collection_has_child(store: &Store, cid: &String) -> (r: bool)
    ensures
        r == has_child(store@.collections, cid@),
{
    let n = store.collections.len();
    let mut i: usize = 0;
    while i < n
        invariant
            n == store.collections.len(),
            i <= n,
            forall|j: int|
                0 <= j < i ==> (#[trigger] store@.collections[j]).parent_id != Some(cid@),
        decreases n - i,
    {
        let c = &store.collections[i];
        let is_child = match &c.parent_id {
            Some(p) => *p == *cid,
            None => false,
        };
        if is_child {
            proof {
                assert((#[trigger] store@.collections[i as int]).parent_id == Some(cid@));
            }
            return true;
        }
        proof {
            assert(c@ == store@.collections[i as int]);
        }
        i += 1;
    }
    proof {
        if has_child(store@.collections, cid@) {
            let j = choose|j: int|
                0 <= j < store@.collections.len() && (#[trigger] store@.collections[j]).parent_id
                    == Some(cid@);
            assert(false);
        }
    }
    false
}

/// Whether blob `t` is owned by collection `cid` or one of its books.
fn blob_condemned(store: &Store, cid: &String, t: u64) -> (r: bool)
    ensures
        r == condemned_blob(store@, cid@, t),
{
    let nb = store.books.len();
    let mut i: usize = 0;
    while i < nb
        invariant
            nb == store.books.len(),
            i <= nb,
            forall|bi: int, k: int|
                0 <= bi < i && (#[trigger] store@.books[bi]).collection_id == cid@ && 0 <= k
                    < store@.books[bi].pages.len() ==> (
                #[trigger] store@.books[bi].pages[k]).image_id != t,
        decreases nb - i,
    {
        let b = &store.books[i];
        proof {
            assert(b@ == store@.books[i as int]);
        }
        if b.collection_id == *cid {
            let np = b.pages.len();
            let mut k: usize = 0;
            while k < np
                invariant
                    np == b.pages.len(),
                    k <= np,
                    b@ == store@.books[i as int],
                    b@.collection_id == cid@,
                    i < nb == store.books.len(),
                    forall|l: int| 0 <= l < k ==> (#[trigger] b@.pages[l]).image_id != t,
                decreases np - k,
            {
                if b.pages[k].image_id == t {
                    proof {
                        assert((#[trigger] store@.books[i as int]).collection_id == cid@);
                        assert((#[trigger] store@.books[i as int].pages[k as int]).image_id == t);
                    }
                    return true;
                }
                k += 1;
            }
        }
        i += 1;
    }
    let r = match find_collection_idx(&store.collections, cid) {
        Some(ci) => match store.collections[ci].thumbnail_id {
            Some(t0) => t0 == t,
            None => false,
        },
        None => false,
    };
    proof {
        if !r && condemned_blob(store@, cid@, t) {
            if exists|bi: int, k: int|
                0 <= bi < store@.books.len() && (#[trigger] store@.books[bi]).collection_id
                    == cid@ && 0 <= k < store@.books[bi].pages.len() && (
                #[trigger] store@.books[bi].pages[k]).image_id == t {
                assert(false);
            }
            assert(false);
        }
    }
    r
}

/// A cascade delete keeps the store well-formed.
pub proof fn lemma_delete_collection_wf(s: StoreV, cid: Seq<char>)
    requires
        s.wf(),
        collection_present(s.collections, cid),
        !has_child(s.collections, cid),
    ensures
        delete_collection_post(s, cid).wf(),
{
    let bpred = |b: ImageDataV| !condemned_blob(s, cid, b.id);
    let cpred = |c: CollectionV| c.id != cid;
    let kpred = |b: crate::books::BookV| b.collection_id != cid;
    let t = delete_collection_post(s, cid);
    let ci = choose|ci: int| 0 <= ci < s.collections.len() && (#[trigger] s.collections[ci]).id
        == cid;
    // The deleted collection is the one `find` resolves.
    lemma_find_collection_ensures(s.collections, cid);
    let fc = find_collection(s.collections, cid).unwrap();
    let fi = choose|fi: int| 0 <= fi < s.collections.len() && s.collections[fi] == fc;
    assert(find_collection(s.collections, cid) == Some(s.collections[ci])) by {
        if fi < ci {
            assert(crate::store::coll_pair_ok(s.collections[fi], s.collections[ci]));
        } else if ci < fi {
            assert(crate::store::coll_pair_ok(s.collections[ci], s.collections[fi]));
        }
    }
    // Distinctness survives every filter.
    let rblob = |a: ImageDataV, b: ImageDataV| a.id != b.id;
    assert forall|i: int, j: int| 0 <= i < j < s.blobs.len() implies #[trigger] rblob(
        s.blobs[i],
        s.blobs[j],
    ) by {
        assert(s.blobs[i].id != s.blobs[j].id);
    }
    crate::store::lemma_filter_preserves_pairwise(s.blobs, bpred, rblob);
    assert forall|i: int, j: int| 0 <= i < j < t.blobs.len() implies (#[trigger] t.blobs[i]).id
        != (#[trigger] t.blobs[j]).id by {
        assert(rblob(t.blobs[i], t.blobs[j]));
    }
    let rcoll = |a: CollectionV, b: CollectionV| crate::store::coll_pair_ok(a, b);
    assert forall|i: int, j: int| 0 <= i < j < s.collections.len() implies #[trigger] rcoll(
        s.collections[i],
        s.collections[j],
    ) by {
        assert(crate::store::coll_pair_ok(s.collections[i], s.collections[j]));
    }
    crate::store::lemma_filter_preserves_pairwise(s.collections, cpred, rcoll);
    assert forall|i: int, j: int| 0 <= i < j < t.collections.len() implies crate::store::coll_pair_ok(
        #[trigger] t.collections[i],
        #[trigger] t.collections[j],
    ) by {
        assert(rcoll(t.collections[i], t.collections[j]));
    }
    let rbook = |a: crate::books::BookV, b: crate::books::BookV| crate::store::book_pair_ok(a, b);
    assert forall|i: int, j: int| 0 <= i < j < s.books.len() implies #[trigger] rbook(
        s.books[i],
        s.books[j],
    ) by {
        assert(crate::store::book_pair_ok(s.books[i], s.books[j]));
    }
    crate::store::lemma_filter_preserves_pairwise(s.books, kpred, rbook);
    assert forall|i: int, j: int| 0 <= i < j < t.books.len() implies crate::store::book_pair_ok(
        #[trigger] t.books[i],
        #[trigger] t.books[j],
    ) by {
        assert(rbook(t.books[i], t.books[j]));
    }
    // Bounded blob ids survive.
    crate::store::lemma_filter_sub(s.blobs, bpred);
    assert forall|i: int| 0 <= i < t.blobs.len() implies (#[trigger] t.blobs[i]).id
        < t.next_blob_id by {
        let j = choose|j: int| 0 <= j < s.blobs.len() && s.blobs[j] == t.blobs[i];
        assert(s.blobs[j].id < s.next_blob_id);
    }
    // The filtered collections are exactly a removal at `ci`.
    assert(!cpred(s.collections[ci]));
    assert forall|j: int| 0 <= j < s.collections.len() && j != ci implies cpred(
        #[trigger] s.collections[j],
    ) by {
        if j < ci {
            assert(crate::store::coll_pair_ok(s.collections[j], s.collections[ci]));
        } else {
            assert(crate::store::coll_pair_ok(s.collections[ci], s.collections[j]));
        }
    }
    crate::store::lemma_filter_is_remove(s.collections, cpred, ci);
    s.collections.remove_ensures(ci);
    // Parents still resolve, strictly earlier.
    assert forall|i2: int| 0 <= i2 < t.collections.len() implies #[trigger] crate::store::parent_ok_at(
        t.collections,
        i2,
    ) by {
        let oi = if i2 < ci {
            i2
        } else {
            i2 + 1
        };
        assert(t.collections[i2] == s.collections[oi]);
        assert(crate::store::parent_ok_at(s.collections, oi));
        match s.collections[oi].parent_id {
            Some(p) => {
                assert(p != cid) by {
                    if p == cid {
                        assert((#[trigger] s.collections[oi]).parent_id == Some(cid));
                    }
                }
                let j = choose|j: int| 0 <= j < oi && (#[trigger] s.collections[j]).id == p;
                assert(j != ci);
                let j2 = if j < ci {
                    j
                } else {
                    j - 1
                };
                assert(t.collections[j2] == s.collections[j]);
                assert(j2 < i2);
                assert((#[trigger] t.collections[j2]).id == p);
            },
            None => {},
        }
    }
    // Surviving thumbnails still resolve.
    assert forall|i2: int| 0 <= i2 < t.collections.len() implies thumb_ok(
        t.blobs,
        #[trigger] t.collections[i2],
    ) by {
        let oi = if i2 < ci {
            i2
        } else {
            i2 + 1
        };
        assert(t.collections[i2] == s.collections[oi]);
        assert(thumb_ok(s.blobs, s.collections[oi]));
        match s.collections[oi].thumbnail_id {
            Some(tb) => {
                let bj = choose|bj: int|
                    0 <= bj < s.blobs.len() && (#[trigger] s.blobs[bj]).id == tb;
                assert(bpred(s.blobs[bj])) by {
                    if condemned_blob(s, cid, tb) {
                        if s.collections[ci].thumbnail_id == Some(tb) {
                            if oi < ci {
                                assert(crate::store::coll_pair_ok(
                                    s.collections[oi],
                                    s.collections[ci],
                                ));
                            } else {
                                assert(crate::store::coll_pair_ok(
                                    s.collections[ci],
                                    s.collections[oi],
                                ));
                            }
                            assert(false);
                        } else {
                            let (bi, k): (int, int) = choose|bi: int, k: int|
                                0 <= bi < s.books.len() && (#[trigger] s.books[bi]).collection_id
                                    == cid && 0 <= k < s.books[bi].pages.len() && (
                                #[trigger] s.books[bi].pages[k]).image_id == tb;
                            assert(crate::store::coll_book_ok(s.collections[oi], s.books[bi]));
                            assert(false);
                        }
                    }
                }
                s.blobs.lemma_filter_contains(bpred, bj);
                let m = choose|m: int|
                    0 <= m < t.blobs.len() && #[trigger] t.blobs[m] == s.blobs[bj];
                assert(blob_present(t.blobs, tb));
            },
            None => {},
        }
    }
    // Surviving books stay well-placed.
    crate::store::lemma_filter_sub(s.books, kpred);
    assert forall|i2: int| 0 <= i2 < t.books.len() implies book_ok(
        t.collections,
        t.blobs,
        #[trigger] t.books[i2],
    ) by {
        let b = t.books[i2];
        s.books.lemma_filter_pred(kpred, i2);
        let bi = choose|bi: int| 0 <= bi < s.books.len() && s.books[bi] == b;
        assert(book_ok(s.collections, s.blobs, b));
        // Its collection survives.
        let j = choose|j: int|
            0 <= j < s.collections.len() && (#[trigger] s.collections[j]).id == b.collection_id;
        assert(j != ci);
        assert(cpred(s.collections[j])) by {
            if j < ci {
                assert(crate::store::coll_pair_ok(s.collections[j], s.collections[ci]));
            } else {
                assert(crate::store::coll_pair_ok(s.collections[ci], s.collections[j]));
            }
        }
        s.collections.lemma_filter_contains(cpred, j);
        let m = choose|m: int|
            0 <= m < t.collections.len() && #[trigger] t.collections[m] == s.collections[j];
        assert(collection_present(t.collections, b.collection_id));
        // Its page blobs survive.
        assert forall|k: int| 0 <= k < b.pages.len() implies #[trigger] page_ok(t.blobs, b, k) by {
            assert(page_ok(s.blobs, b, k));
            let pid = b.pages[k].image_id;
            let bj = choose|bj: int| 0 <= bj < s.blobs.len() && (#[trigger] s.blobs[bj]).id == pid;
            assert(bpred(s.blobs[bj])) by {
                if condemned_blob(s, cid, pid) {
                    if s.collections[ci].thumbnail_id == Some(pid) {
                        assert(crate::store::coll_book_ok(s.collections[ci], s.books[bi]));
                        assert(false);
                    } else {
                        let (b2, k2): (int, int) = choose|b2: int, k2: int|
                            0 <= b2 < s.books.len() && (#[trigger] s.books[b2]).collection_id
                                == cid && 0 <= k2 < s.books[b2].pages.len() && (
                            #[trigger] s.books[b2].pages[k2]).image_id == pid;
                        assert(b2 != bi);
                        if bi < b2 {
                            assert(crate::store::book_pair_ok(s.books[bi], s.books[b2]));
                        } else {
                            assert(crate::store::book_pair_ok(s.books[b2], s.books[bi]));
                        }
                        assert(false);
                    }
                }
            }
            s.blobs.lemma_filter_contains(bpred, bj);
            let m2 = choose|m2: int|
                0 <= m2 < t.blobs.len() && #[trigger] t.blobs[m2] == s.blobs[bj];
            assert(blob_present(t.blobs, pid));
        }
    }
    // Thumbnails and pages stay disjoint.
    assert forall|i2: int, j2: int|
        0 <= i2 < t.collections.len() && 0 <= j2 < t.books.len() implies crate::store::coll_book_ok(
        #[trigger] t.collections[i2],
        #[trigger] t.books[j2],
    ) by {
        let oi = if i2 < ci {
            i2
        } else {
            i2 + 1
        };
        assert(t.collections[i2] == s.collections[oi]);
        let bi = choose|bi: int| 0 <= bi < s.books.len() && s.books[bi] == t.books[j2];
        assert(crate::store::coll_book_ok(s.collections[oi], s.books[bi]));
    }
}

/// Deletes a collection and cascades: its books, their page blobs, and
/// its thumbnail blob go with it. Rejected with `NotFound` when absent
/// and `HasChildren` while child collections remain.
pub fn delete_collection(store: &mut Store, id: &String) -> (r: Result<(), StoreError>)
    requires
        old(store)@.wf(),
    ensures
        final(store)@.wf(),
        r == delete_collection_check(old(store)@, id@),
        r is Ok ==> final(store)@ == delete_collection_post(old(store)@, id@),
        r is Err ==> final(store)@ == old(store)@,
{
    let ghost pre = store@;
    if find_collection_idx(&store.collections, id).is_none() {
        return Err(StoreError::NotFound);
    }
    if collection_has_child(store, id) {
        return Err(StoreError::HasChildren);
    }
    let nb = store.blobs.len();
    let mut new_blobs: Vec<ImageData> = Vec::new();
    let mut i: usize = 0;
    while i < nb
        invariant
            nb == store.blobs.len(),
            i <= nb,
            store@ == pre,
            new_blobs.deep_view() =~= pre.blobs.subrange(0, i as int).filter(
                |b: ImageDataV| !condemned_blob(pre, id@, b.id),
            ),
        decreases nb - i,
    {
        proof {
            crate::store::lemma_filter_take_step(
                pre.blobs,
                |b: ImageDataV| !condemned_blob(pre, id@, b.id),
                i as int,
            );
        }
        let keep = !blob_condemned(store, id, store.blobs[i].id);
        if keep {
            new_blobs.push(store.blobs[i].duplicate());
        }
        proof {
            assert(new_blobs.deep_view() =~= pre.blobs.subrange(0, i + 1).filter(
                |b: ImageDataV| !condemned_blob(pre, id@, b.id),
            ));
        }
        i += 1;
    }
    let nc = store.collections.len();
    let mut new_collections: Vec<Collection> = Vec::new();
    let mut j: usize = 0;
    while j < nc
        invariant
            nc == store.collections.len(),
            j <= nc,
            store@ == pre,
            new_collections.deep_view() =~= pre.collections.subrange(0, j as int).filter(
                |c: CollectionV| c.id != id@,
            ),
        decreases nc - j,
    {
        proof {
            crate::store::lemma_filter_take_step(
                pre.collections,
                |c: CollectionV| c.id != id@,
                j as int,
            );
        }
        let c = &store.collections[j];
        proof {
            assert(c@ == pre.collections[j as int]);
        }
        if !(c.id == *id) {
            new_collections.push(c.duplicate());
        }
        proof {
            assert(new_collections.deep_view() =~= pre.collections.subrange(0, j + 1).filter(
                |c: CollectionV| c.id != id@,
            ));
        }
        j += 1;
    }
    let nk = store.books.len();
    let mut new_books: Vec<crate::books::Book> = Vec::new();
    let mut k: usize = 0;
    while k < nk
        invariant
            nk == store.books.len(),
            k <= nk,
            store@ == pre,
            new_books.deep_view() =~= pre.books.subrange(0, k as int).filter(
                |b: crate::books::BookV| b.collection_id != id@,
            ),
        decreases nk - k,
    {
        proof {
            crate::store::lemma_filter_take_step(
                pre.books,
                |b: crate::books::BookV| b.collection_id != id@,
                k as int,
            );
        }
        let b = &store.books[k];
        proof {
            assert(b@ == pre.books[k as int]);
        }
        if !(b.collection_id == *id) {
            new_books.push(b.duplicate());
        }
        proof {
            assert(new_books.deep_view() =~= pre.books.subrange(0, k + 1).filter(
                |b: crate::books::BookV| b.collection_id != id@,
            ));
        }
        k += 1;
    }
    store.blobs = new_blobs;
    store.collections = new_collections;
    store.books = new_books;
    proof {
        assert(pre.blobs.subrange(0, nb as int) =~= pre.blobs);
        assert(pre.collections.subrange(0, nc as int) =~= pre.collections);
        assert(pre.books.subrange(0, nk as int) =~= pre.books);
        assert(store@ =~= delete_collection_post(pre, id@));
        lemma_delete_collection_wf(pre, id@);
    }
    Ok(())
}

/// What `getThumbnail` resolves to on a given store.
pub open spec fn thumbnail_of(s: StoreV, cid: Seq<char>) -> Result<ImageDataV, StoreError> {
    match find_collection(s.collections, cid) {
        None => Err(StoreError::NotFound),
        Some(c) => match c.thumbnail_id {
            None => Err(StoreError::NoThumbnail),
            Some(t) => match crate::images::find_blob(s.blobs, t) {
                Some(b) => Ok(b),
                None => Err(StoreError::NotFound),
            },
        },
    }
}

/// Stores new thumbnail content for a collection, wires the reference,
/// then removes the previous thumbnail blob. `NotFound` exactly when the
/// collection is absent; `StoreUnavailable` exactly when the blob id
/// space is exhausted.
pub fn set_collection_thumbnail(
    store: &mut Store,
    collection_id: &String,
    mime: String,
    content: Vec<u8>,
) -> (r: Result<u64, StoreError>)
    requires
        old(store)@.wf(),
    ensures
        final(store)@.wf(),
        r == Result::<u64, StoreError>::Err(StoreError::NotFound) <==> !collection_present(
            old(store)@.collections,
            collection_id@,
        ),
        r == Result::<u64, StoreError>::Err(StoreError::StoreUnavailable) <==> collection_present(
            old(store)@.collections,
            collection_id@,
        ) && !crate::store::blob_space_left(old(store)@),
        r is Err ==> r == Result::<u64, StoreError>::Err(StoreError::NotFound) || r == Result::<
            u64,
            StoreError,
        >::Err(StoreError::StoreUnavailable),
        r is Ok <==> collection_present(old(store)@.collections, collection_id@)
            && crate::store::blob_space_left(old(store)@),
        r is Err ==> final(store)@ == old(store)@,
        r matches Ok(t) ==> t == old(store)@.next_blob_id && final(store)@ == set_thumbnail_post(
            old(store)@,
            collection_id@,
            mime@,
            content@,
        ),
{
    let ghost pre = store@;
    let idx = match find_collection_idx(&store.collections, collection_id) {
        Some(i) => i,
        None => {
            return Err(StoreError::NotFound);
        },
    };
    let old_thumb: Option<u64> = store.collections[idx].thumbnail_id;
    proof {
        assert(pre.collections[idx as int].thumbnail_id == old_thumb);
    }
    let t = match crate::images::create_image_data(
        store,
        ImageData { id: 0, mime, content },
    ) {
        Ok(t) => t,
        Err(_) => {
            return Err(StoreError::StoreUnavailable);
        },
    };
    let ghost s1 = store@;
    let n = store.collections.len();
    let mut out: Vec<Collection> = Vec::new();
    let mut i: usize = 0;
    while i < n
        invariant
            n == store.collections.len(),
            i <= n,
            store@ == s1,
            s1.collections == pre.collections,
            out.deep_view() =~= set_thumb_in(
                s1.collections.subrange(0, i as int),
                collection_id@,
                t,
            ),
        decreases n - i,
    {
        let c = &store.collections[i];
        proof {
            assert(c@ == s1.collections[i as int]);
        }
        let nc = if c.id == *collection_id {
            let parent_id = match &c.parent_id {
                Some(p) => Some(p.clone()),
                None => None,
            };
            Collection { id: c.id.clone(), name: c.name.clone(), parent_id, thumbnail_id: Some(t) }
        } else {
            c.duplicate()
        };
        let ghost v0 = out@;
        let ghost dv0 = out.deep_view();
        out.push(nc);
        proof {
            assert(s1.collections.len() == n as int);
            assert(dv0.len() == i as int);
            assert(v0.len() == i as int);
            let target = set_thumb_in(s1.collections.subrange(0, i + 1), collection_id@, t);
            assert(target.len() == i + 1);
            assert forall|k: int| 0 <= k < out@.len() implies out.deep_view()[k] == target[k] by {
                if k < v0.len() {
                    assert(out@[k] == v0[k]);
                    assert(dv0[k] == v0[k].deep_view());
                    assert(dv0[k] == set_thumb_in(
                        s1.collections.subrange(0, i as int),
                        collection_id@,
                        t,
                    )[k]);
                } else {
                    assert(out@[k] == nc);
                }
            }
            assert(out.deep_view() =~= target);
        }
        i += 1;
    }
    proof {
        assert(s1.collections.subrange(0, n as int) =~= s1.collections);
    }
    store.collections = out;
    proof {
        assert(store@ =~= (StoreV {
            blobs: s1.blobs,
            next_blob_id: s1.next_blob_id,
            collections: set_thumb_in(s1.collections, collection_id@, t),
            books: s1.books,
        }));
        assert(blob_present(s1.blobs, t)) by {
            assert(s1.blobs[s1.blobs.len() - 1].id == t);
        }
        assert(!s1.blob_referenced(t)) by {
            if s1.blob_referenced(t) {
                assert(pre.blob_referenced(t));
                if exists|i: int|
                    0 <= i < pre.collections.len() && (#[trigger] pre.collections[i]).thumbnail_id
                        == Some(t) {
                    let i = choose|i: int|
                        0 <= i < pre.collections.len() && (
                        #[trigger] pre.collections[i]).thumbnail_id == Some(t);
                    assert(thumb_ok(pre.blobs, pre.collections[i]));
                    let j = choose|j: int|
                        0 <= j < pre.blobs.len() && (#[trigger] pre.blobs[j]).id == t;
                    assert(false);
                } else {
                    let (i, k): (int, int) = choose|i: int, k: int|
                        0 <= i < pre.books.len() && 0 <= k < pre.books[i].pages.len() && (
                        #[trigger] pre.books[i].pages[k]).image_id == t;
                    assert(book_ok(pre.collections, pre.blobs, pre.books[i]));
                    assert(page_ok(pre.blobs, pre.books[i], k));
                    let j = choose|j: int|
                        0 <= j < pre.blobs.len() && (#[trigger] pre.blobs[j]).id == t;
                    assert(false);
                }
            }
        }
        lemma_set_thumb_wf(s1, collection_id@, t);
        lemma_find_collection_ensures(pre.collections, collection_id@);
    }
    match old_thumb {
        Some(t0) => {
            proof {
                assert(find_collection(pre.collections, collection_id@) == Some(
                    pre.collections[idx as int],
                ));
                assert(thumb_ok(pre.blobs, pre.collections[idx as int]));
                let j = choose|j: int|
                    0 <= j < pre.blobs.len() && (#[trigger] pre.blobs[j]).id == t0;
                assert(store@.blobs[j] == pre.blobs[j]);
                assert(blob_present(store@.blobs, t0));
                crate::images::lemma_find_blob_ensures(store@.blobs, t0);
                if crate::images::find_blob(store@.blobs, t0) is None {
                    assert(store@.blobs[j].id != t0);
                    assert(false);
                }
            }
            let d = crate::images::delete_image_data(store, t0);
            proof {
                assert(d is Ok);
            }
        },
        None => {},
    }
    proof {
        assert(store@ == set_thumbnail_post(pre, collection_id@, mime@, content@));
    }
    Ok(t)
}

/// Resolves a collection's thumbnail to its content. `NotFound` exactly
/// when the collection is absent, `NoThumbnail` exactly when it carries
/// none.
pub fn get_collection_thumbnail(store: &Store, id: &String) -> (r: Result<ImageData, StoreError>)
    ensures
        match r {
            Ok(b) => thumbnail_of(store@, id@) == Result::<ImageDataV, StoreError>::Ok(b@),
            Err(e) => thumbnail_of(store@, id@) == Result::<ImageDataV, StoreError>::Err(e),
        },
{
    let idx = match find_collection_idx(&store.collections, id) {
        Some(i) => i,
        None => {
            return Err(StoreError::NotFound);
        },
    };
    match store.collections[idx].thumbnail_id {
        None => Err(StoreError::NoThumbnail),
        Some(t) => match crate::images::get_image_data(store, t) {
            Some(b) => Ok(b),
            None => Err(StoreError::NotFound),
        },
    }
}

/// The children of `parent` — or the roots, when `parent` is `None` —
/// in store order.
pub fn get_collections(store: &Store, parent: &Option<String>) -> (r: Vec<Collection>)
    ensures
        r.deep_view() == store@.collections.filter(
            |c: CollectionV| c.parent_id == opt_str_view(*parent),
        ),
{
    let n = store.collections.len();
    let mut out: Vec<Collection> = Vec::new();
    let mut i: usize = 0;
    while i < n
        invariant
            n == store.collections.len(),
            i <= n,
            out.deep_view() =~= store@.collections.subrange(0, i as int).filter(
                |c: CollectionV| c.parent_id == opt_str_view(*parent),
            ),
        decreases n - i,
    {
        proof {
            crate::store::lemma_filter_take_step(
                store@.collections,
                |c: CollectionV| c.parent_id == opt_str_view(*parent),
                i as int,
            );
        }
        let c = &store.collections[i];
        let same = opt_str_eq(&c.parent_id, parent);
        proof {
            assert(c@ == store@.collections[i as int]);
        }
        if same {
            out.push(c.duplicate());
        }
        proof {
            assert(out.deep_view() =~= store@.collections.subrange(0, i + 1).filter(
                |c: CollectionV| c.parent_id == opt_str_view(*parent),
            ));
        }
        i += 1;
    }
    proof {
        assert(store@.collections.subrange(0, n as int) =~= store@.collections);
    }
    out
}

} // verus!
