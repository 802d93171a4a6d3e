//! Trusted interface to the ordered on-disk key-value store.
//!
//! The store maps byte keys to byte values and iterates in ascending
//! lexicographic key order.  Each wrapper below holds exactly one store
//! call; its contract states, over the named contents of a tree handle,
//! what the store's own documentation promises.  Following the
//! single-writer design, all writes to a tree go through one owning
//! task, so the contents seen through a handle change only through the
//! calls made on it.

use vstd::prelude::*;

use crate::codec::lex_lt;

verus! {

#[verifier::external_type_specification]
#[verifier::external_body]
pub struct ExTree(sled::Tree);

#[verifier::external_type_specification]
#[verifier::external_body]
pub struct ExDb(sled::Db);

#[verifier::external_type_specification]
#[verifier::external_body]
pub struct ExSledError(sled::Error);

/// The byte-keyed contents of a tree, as seen through one handle.
pub uninterp spec fn tree_contents(t: sled::Tree) -> Map<Seq<u8>, Seq<u8>>;

/// Database trees for the indexer.
pub struct Trees {
    pub root: sled::Db,
    pub span: sled::Tree,
    pub feather: sled::Tree,
}

/// Relies on sled::Tree::insert: upserts the pair, so the contents
/// afterwards map the key to the value.
#[verifier::external_body]
pub(crate) fn tree_insert(t: &mut sled::Tree, key: &Vec<u8>, value: &Vec<u8>) -> (r: Result<
    (),
    sled::Error,
>)
    ensures
        r is Ok ==> tree_contents(*final(t)) == tree_contents(*old(t)).insert(key@, value@),
{
    match t.insert(key.as_slice(), value.as_slice()) {
        Ok(_) => Ok(()),
        Err(e) => Err(e),
    }
}

/// Relies on sled::Tree::remove: deletes the key and returns the value
/// it held, if any.
#[verifier::external_body]
pub(crate) fn tree_remove(t: &mut sled::Tree, key: &Vec<u8>) -> (r: Result<
    Option<Vec<u8>>,
    sled::Error,
>)
    ensures
        r is Ok ==> tree_contents(*final(t)) == tree_contents(*old(t)).remove(key@),
        r matches Ok(Some(v)) ==> tree_contents(*old(t)).contains_key(key@) && v@ == tree_contents(
            *old(t),
        )[key@],
        r matches Ok(None) ==> !tree_contents(*old(t)).contains_key(key@),
{
    match t.remove(key.as_slice()) {
        Ok(prev) => Ok(prev.map(|v| v.to_vec())),
        Err(e) => Err(e),
    }
}

/// Relies on sled::Tree::iter: yields every pair of the contents, in
/// ascending lexicographic key order.
#[verifier::external_body]
pub(crate) fn tree_scan(t: &sled::Tree) -> (r: Result<Vec<(Vec<u8>, Vec<u8>)>, sled::Error>)
    ensures
        r matches Ok(v) ==> {
            &&& forall|i: int, j: int|
                0 <= i < j < v@.len() ==> lex_lt(#[trigger] v@[i].0@, #[trigger] v@[j].0@)
            &&& forall|i: int|
                0 <= i < v@.len() ==> tree_contents(*t).contains_key(#[trigger] v@[i].0@)
                    && v@[i].1@ == tree_contents(*t)[v@[i].0@]
            &&& forall|k: Seq<u8>|
                #[trigger] tree_contents(*t).contains_key(k) ==> exists|i: int|
                    0 <= i < v@.len() && (#[trigger] v@[i].0@) == k
        },
{
    let mut out = Vec::new();
    for item in t.iter() {
        let (k, v) = item?;
        out.push((k.to_vec(), v.to_vec()));
    }
    Ok(out)
}

/// Relies on sled::Tree::range: yields exactly the pairs of the
/// contents whose key is at most the bound, in ascending lexicographic
/// key order.
#[verifier::external_body]
pub(crate) fn tree_scan_to(t: &sled::Tree, upper: &Vec<u8>) -> (r: Result<
    Vec<(Vec<u8>, Vec<u8>)>,
    sled::Error,
>)
    ensures
        r matches Ok(v) ==> {
            &&& forall|i: int, j: int|
                0 <= i < j < v@.len() ==> lex_lt(#[trigger] v@[i].0@, #[trigger] v@[j].0@)
            &&& forall|i: int|
                0 <= i < v@.len() ==> tree_contents(*t).contains_key(#[trigger] v@[i].0@)
                    && v@[i].1@ == tree_contents(*t)[v@[i].0@] && !lex_lt(upper@, v@[i].0@)
            &&& forall|k: Seq<u8>|
                tree_contents(*t).contains_key(k) && !lex_lt(upper@, k) ==> exists|i: int|
                    0 <= i < v@.len() && (#[trigger] v@[i].0@) == k
        },
{
    let mut out = Vec::new();
    for item in t.range(..=upper.as_slice()) {
        let (k, v) = item?;
        out.push((k.to_vec(), v.to_vec()));
    }
    Ok(out)
}

/// Relies on sled::Db::size_on_disk: the total on-disk byte size of the
/// store; the number depends on the machine, so nothing more is stated.
#[verifier::external_body]
pub(crate) fn db_size_on_disk(db: &sled::Db) -> (r: Result<u64, sled::Error>) {
    db.size_on_disk()
}

} // verus!
