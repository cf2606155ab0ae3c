use vstd::prelude::*;

use crate::errors::StoreError;
use crate::store::{blob_space_left, put_blob, remove_blob, Store, StoreV};

verus! {

/// A stored binary payload ("blob"): opaque bytes with a content type,
/// addressed by a numeric id that the store allocates.
#[derive(Debug)]
pub struct ImageData {
    pub id: u64,
    pub mime: String,
    pub content: Vec<u8>,
}

/// The mathematical value of an [`ImageData`].
#[verifier::ext_equal]
pub ghost struct ImageDataV {
    pub id: u64,
    pub mime: Seq<char>,
    pub content: Seq<u8>,
}

impl View for ImageData {
    type V = ImageDataV;

    open spec fn view(&self) -> ImageDataV {
        ImageDataV { id: self.id, mime: self.mime@, content: self.content@ }
    }
}

impl DeepView for ImageData {
    type V = ImageDataV;

    open spec fn deep_view(&self) -> ImageDataV {
        self.view()
    }
}

impl ImageData {
    /// An explicit copy with a contract; a derived clone would promise
    /// nothing to the verifier.
    pub fn duplicate(&self) -> (r: ImageData)
        ensures
            r@ == self@,
    {
        ImageData { id: self.id, mime: self.mime.clone(), content: self.content.clone() }
    }
}

/// The first blob with the given id, in store order.
pub open spec fn find_blob(blobs: Seq<ImageDataV>, id: u64) -> Option<ImageDataV>
    decreases blobs.len(),
{
    if blobs.len() == 0 {
        None
    } else if blobs[0].id == id {
        Some(blobs[0])
    } else {
        find_blob(blobs.drop_first(), id)
    }
}

pub proof fn lemma_find_blob_ensures(blobs: Seq<ImageDataV>, id: u64)
    ensures
        match find_blob(blobs, id) {
            Some(b) => b.id == id && blobs.contains(b),
            None => forall|i: int| 0 <= i < blobs.len() ==> (#[trigger] blobs[i]).id != id,
        },
    decreases blobs.len(),
{
    if blobs.len() > 0 && blobs[0].id != id {
        lemma_find_blob_ensures(blobs.drop_first(), id);
        match find_blob(blobs.drop_first(), id) {
            Some(b) => {
                let i = choose|i: int|
                    0 <= i < blobs.drop_first().len() && blobs.drop_first()[i] == b;
                assert(blobs[i + 1] == b);
            },
            None => {
                assert forall|i: int| 0 <= i < blobs.len() implies (#[trigger] blobs[i]).id
                    != id by {
                    if i > 0 {
                        assert(blobs.drop_first()[i - 1] == blobs[i]);
                    }
                }
            },
        }
    }
}

/// Appending a blob whose id is absent: the appended blob is found exactly
/// when its id is asked for.
pub proof fn lemma_find_blob_push(blobs: Seq<ImageDataV>, b: ImageDataV, id: u64)
    requires
        forall|i: int| 0 <= i < blobs.len() ==> (#[trigger] blobs[i]).id != id,
    ensures
        find_blob(blobs.push(b), id) == if b.id == id {
            Some(b)
        } else {
            None::<ImageDataV>
        },
    decreases blobs.len(),
{
    if blobs.len() == 0 {
        assert(blobs.push(b).drop_first() =~= Seq::<ImageDataV>::empty());
    } else {
        assert(blobs.push(b)[0] == blobs[0]);
        assert(blobs.push(b).drop_first() =~= blobs.drop_first().push(b));
        assert(forall|i: int|
            0 <= i < blobs.drop_first().len() ==> (#[trigger] blobs.drop_first()[i]).id != id);
        lemma_find_blob_push(blobs.drop_first(), b, id);
    }
}

/// Stores new content under a freshly allocated id; `Ok` exactly when the
/// id space is not exhausted. The `id` field of the argument is ignored:
/// the store itself names the new blob.
pub fn create_image_data(store: &mut Store, image_data: ImageData) -> (r: Result<u64, StoreError>)
    requires
        old(store)@.wf(),
    ensures
        final(store)@.wf(),
        r is Ok <==> blob_space_left(old(store)@),
        r matches Ok(id) ==> id == old(store)@.next_blob_id && final(store)@ == put_blob(
            old(store)@,
            image_data.mime@,
            image_data.content@,
        ),
        r is Err ==> r == Result::<u64, StoreError>::Err(StoreError::StoreUnavailable)
            && final(store)@ == old(store)@,
{
    if store.next_blob_id == u64::MAX {
        return Err(StoreError::StoreUnavailable);
    }
    let id = store.next_blob_id;
    let blob = ImageData { id, mime: image_data.mime, content: image_data.content };
    store.blobs.push(blob);
    store.next_blob_id = id + 1;
    proof {
        assert(store@.blobs =~= old(store)@.blobs.push(
            ImageDataV { id, mime: image_data.mime@, content: image_data.content@ },
        ));
        assert(store@ =~= put_blob(old(store)@, image_data.mime@, image_data.content@));
        crate::store::lemma_put_blob_wf(old(store)@, image_data.mime@, image_data.content@);
    }
    Ok(id)
}

/// Looks a blob up by id; `Some` exactly when the id is present.
pub fn get_image_data(store: &Store, id: u64) -> (r: Option<ImageData>)
    ensures
        match r {
            Some(b) => find_blob(store@.blobs, id) == Some(b@),
            None => find_blob(store@.blobs, id) is None,
        },
{
    let n = store.blobs.len();
    let mut i: usize = 0;
    proof {
        assert(store@.blobs.skip(0) =~= store@.blobs);
    }
    while i < n
        invariant
            n == store.blobs.len(),
            i <= n,
            find_blob(store@.blobs, id) == find_blob(store@.blobs.skip(i as int), id),
        decreases n - i,
    {
        proof {
            assert(store@.blobs.skip(i as int)[0] == store@.blobs[i as int]);
            assert(store@.blobs.skip(i as int).drop_first() =~= store@.blobs.skip(i + 1));
        }
        if store.blobs[i].id == id {
            return Some(store.blobs[i].duplicate());
        }
        i += 1;
    }
    proof {
        assert(store@.blobs.skip(n as int) =~= Seq::<ImageDataV>::empty());
    }
    None
}

/// Removes a blob by id; `Ok` exactly when the id was present. The caller
/// is responsible for removing a blob only once its last referencer is
/// gone, which the precondition states.
pub fn delete_image_data(store: &mut Store, id: u64) -> (r: Result<(), StoreError>)
    requires
        old(store)@.wf(),
        !old(store)@.blob_referenced(id),
    ensures
        final(store)@.wf(),
        r is Ok <==> find_blob(old(store)@.blobs, id) is Some,
        r is Err ==> r == Result::<(), StoreError>::Err(StoreError::NotFound) && final(store)@
            == old(store)@,
        r is Ok ==> final(store)@ == remove_blob(old(store)@, id),
{
    let ghost pre = store@;
    let n = store.blobs.len();
    let mut i: usize = 0;
    let mut found = false;
    let mut out: Vec<ImageData> = Vec::new();
    while i < n
        invariant
            n == store.blobs.len(),
            i <= n,
            store@ == pre,
            out.deep_view() =~= pre.blobs.subrange(0, i as int).filter(
                |b: ImageDataV| b.id != id,
            ),
            found <==> exists|j: int| 0 <= j < i && (#[trigger] pre.blobs[j]).id == id,
        decreases n - i,
    {
        proof {
            crate::store::lemma_filter_take_step(pre.blobs, |b: ImageDataV| b.id != id, i as int);
        }
        if store.blobs[i].id == id {
            found = true;
            proof {
                assert((#[trigger] pre.blobs[i as int]).id == id);
            }
        } else {
            out.push(store.blobs[i].duplicate());
            proof {
                assert(out.deep_view() =~= pre.blobs.subrange(0, (i + 1) as int).filter(
                    |b: ImageDataV| b.id != id,
                ));
            }
        }
        i += 1;
    }
    proof {
        assert(pre.blobs.subrange(0, n as int) =~= pre.blobs);
        lemma_find_blob_ensures(pre.blobs, id);
        if found {
            assert(find_blob(pre.blobs, id) is Some);
        } else {
            if find_blob(pre.blobs, id) is Some {
                let b = find_blob(pre.blobs, id).unwrap();
                let j = choose|j: int| 0 <= j < pre.blobs.len() && pre.blobs[j] == b;
                assert((#[trigger] pre.blobs[j]).id == id);
                assert(false);
            }
        }
    }
    if !found {
        return Err(StoreError::NotFound);
    }
    store.blobs = out;
    proof {
        assert(store@ =~= remove_blob(pre, id));
        crate::store::lemma_remove_blob_wf(pre, id);
    }
    Ok(())
}

} // verus!
