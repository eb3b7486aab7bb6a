//! Route keys: the rate-limit scope a request falls into.
//!
//! A request target is first relieved of the API-version prefix, then its
//! path (the part before any `?`) is classified into a bucket by the
//! upstream client library's route table.
use vstd::prelude::*;
use crate::bytes::{find_byte, has_prefix, index_of, lemma_index_of, slice};

verus! {

/// The API-version prefix, `/api/v8`, as bytes.
pub open spec fn version_prefix() -> Seq<u8> {
    seq![47u8, 97u8, 112u8, 105u8, 47u8, 118u8, 56u8]
}

/// A target with the version prefix removed from its front, once, if it
/// starts with it; any other target unchanged.
pub open spec fn strip_spec(target: Seq<u8>) -> Seq<u8> {
    if version_prefix().is_prefix_of(target) {
        target.skip(version_prefix().len() as int)
    } else {
        target
    }
}

/// The path of a target: everything before the first `?`.
pub open spec fn path_of(target: Seq<u8>) -> Seq<u8> {
    target.take(index_of(target, 63u8))
}

/// The bucket that twilight-http's route table assigns to a method and a
/// path, written as the `Debug` text of its `Path` value; `None` where the
/// method is no HTTP token, the path is not UTF-8, or the table turns the
/// path down.
pub uninterp spec fn bucket_name(method: Seq<u8>, path: Seq<u8>) -> Option<Seq<u8>>;

/// The route key of a request: the bucket of its method and of the path of
/// its stripped target.
pub open spec fn route_key_spec(method: Seq<u8>, target: Seq<u8>) -> Option<Seq<u8>> {
    bucket_name(method, path_of(strip_spec(target)))
}

/// A rate-limit scope. Requests with equal keys share rate-limit accounting
/// for a given credential. `Unclassified` is the catch-all scope of every
/// request the route table does not know.
#[derive(Clone, Debug, PartialEq, Eq)]
pub enum RouteKey {
    Bucket(Vec<u8>),
    Unclassified,
}

impl View for RouteKey {
    type V = Option<Seq<u8>>;

    open spec fn view(&self) -> Option<Seq<u8>> {
        match self {
            RouteKey::Bucket(name) => Some(name@),
            RouteKey::Unclassified => None,
        }
    }
}

impl RouteKey {
    /// Whether two keys name the same scope.
    pub fn same(&self, other: &RouteKey) -> (r: bool)
        ensures
            r == (self@ == other@),
    {
        match (self, other) {
            (RouteKey::Bucket(a), RouteKey::Bucket(b)) => crate::bytes::same_bytes(a, b),
            (RouteKey::Unclassified, RouteKey::Unclassified) => true,
            _ => false,
        }
    }

    /// An independent copy of the key.
    pub fn duplicate(&self) -> (r: RouteKey)
        ensures
            r@ == self@,
    {
        match self {
            RouteKey::Bucket(name) => RouteKey::Bucket(crate::bytes::copy_bytes(name)),
            RouteKey::Unclassified => RouteKey::Unclassified,
        }
    }
}

proof fn lemma_version_prefix_len()
    ensures
        version_prefix().len() == 7,
        version_prefix()[0] == 47u8,
        version_prefix()[1] == 97u8,
        version_prefix()[2] == 112u8,
        version_prefix()[3] == 105u8,
        version_prefix()[4] == 47u8,
        version_prefix()[5] == 118u8,
        version_prefix()[6] == 56u8,
{
}

/// Removes the API-version prefix from the front of a target.
pub fn strip_version_prefix(target: &Vec<u8>) -> (r: Vec<u8>)
    ensures
        r@ == strip_spec(target@),
{
    let prefix: Vec<u8> = vec![47u8, 97u8, 112u8, 105u8, 47u8, 118u8, 56u8];
    proof {
        lemma_version_prefix_len();
        assert(prefix@ =~= version_prefix());
    }
    let start: usize = if has_prefix(target, &prefix) {
        prefix.len()
    } else {
        0
    };
    assert(target@.subrange(0, target@.len() as int) =~= target@);
    slice(target, start, target.len())
}

/// The path part of a target: the bytes before its first `?`.
pub fn path_part(target: &Vec<u8>) -> (r: Vec<u8>)
    ensures
        r@ == path_of(target@),
{
    slice(target, 0, find_byte(target, 63u8))
}

/// Asks twilight-http's route table (`Path::try_from` on a method and a
/// path) for the bucket of a request and hands back its `Debug` text.
/// The method goes in through `http::Method::from_bytes`, the path as
/// UTF-8 text. Nothing is proved of this function. Its contract only names
/// the answer: it is whatever the table says for these two arguments, and
/// `None` where the table returns an error or an argument cannot be handed
/// to it.
#[verifier::external_body]
fn classify(method: &Vec<u8>, path: &Vec<u8>) -> (r: Option<Vec<u8>>)
    ensures
        match r {
            Some(name) => bucket_name(method@, path@) == Some(name@),
            None => bucket_name(method@, path@).is_none(),
        },
{
    let method = http::Method::from_bytes(method).ok()?;
    let path = std::str::from_utf8(path).ok()?;
    match twilight_http::routing::Path::try_from((method, path)) {
        Ok(bucket) => Some(format!("{:?}", bucket).into_bytes()),
        Err(_) => None,
    }
}

/// Turns the route table's answer into a key: a named bucket where it gave
/// one, the catch-all scope where it gave none.
pub fn route_key_from(bucket: Option<Vec<u8>>) -> (key: RouteKey)
    ensures
        key@ == match bucket {
            Some(name) => Some(name@),
            None => None,
        },
{
    match bucket {
        Some(name) => RouteKey::Bucket(name),
        None => RouteKey::Unclassified,
    }
}

/// Derives the route key of a request from its method and target.
///
/// The version prefix and any query string play no part in the key. Never
/// fails: a request that cannot be classified lands in the catch-all scope.
pub fn derive_route_key(method: &Vec<u8>, target: &Vec<u8>) -> (key: RouteKey)
    ensures
        key@ == route_key_spec(method@, target@),
{
    let stripped = strip_version_prefix(target);
    let path = path_part(&stripped);
    route_key_from(classify(method, &path))
}

/// A target that carries the version prefix has the same route key as the
/// target that follows the prefix, provided that remainder does not itself
/// begin with the prefix again.
pub proof fn lemma_route_key_ignores_version_prefix(method: Seq<u8>, rest: Seq<u8>)
    requires
        !version_prefix().is_prefix_of(rest),
    ensures
        route_key_spec(method, version_prefix() + rest) == route_key_spec(method, rest),
{
    let whole = version_prefix() + rest;
    assert(whole.subrange(0, version_prefix().len() as int) =~= version_prefix());
    assert(whole.skip(version_prefix().len() as int) =~= rest);
}

/// A query string plays no part in the route key: a path without `?` has
/// the same key alone and followed by `?` and any query.
pub proof fn lemma_route_key_ignores_query(method: Seq<u8>, path: Seq<u8>, query: Seq<u8>)
    requires
        forall|i: int| 0 <= i < path.len() ==> path[i] != 63u8,
    ensures
        route_key_spec(method, path + seq![63u8] + query) == route_key_spec(method, path),
{
    lemma_version_prefix_len();
    let whole = path + seq![63u8] + query;
    let prefix = version_prefix();
    assert(whole[path.len() as int] == 63u8);
    assert forall|i: int| 0 <= i < path.len() implies whole[i] == path[i] by {}
    if prefix.is_prefix_of(whole) {
        assert(whole.subrange(0, 7) == prefix);
        assert forall|i: int| 0 <= i < 7 implies whole[i] == prefix[i] by {
            assert(whole.subrange(0, 7)[i] == whole[i]);
        }
        if path.len() < 7 {
            assert(whole[path.len() as int] == prefix[path.len() as int]);
        }
        assert(path.subrange(0, 7) =~= prefix);
    }
    if prefix.is_prefix_of(path) {
        assert(path.subrange(0, 7) == prefix);
        assert(whole.subrange(0, 7) =~= path.subrange(0, 7));
    }
    let cut = strip_spec(path);
    let rest = strip_spec(whole);
    assert(rest =~= cut + seq![63u8] + query);
    assert(rest[cut.len() as int] == 63u8);
    lemma_index_of(rest, 63u8, cut.len() as int);
    lemma_index_of(cut, 63u8, cut.len() as int);
    assert(path_of(rest) =~= cut);
    assert(path_of(cut) =~= cut);
}

} // verus!
