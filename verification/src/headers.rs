//! Header lists and the few header names the relay gives a meaning to.
use vstd::prelude::*;
use crate::bytes::{copy_bytes, decimal_spec, eq_ignore_case, parse_decimal, parse_seconds, same_name, seconds_spec};
use crate::ledger::Timestamp;

verus! {

/// One header line. Names compare without regard to ASCII case; values are
/// opaque bytes.
#[derive(Clone, Debug, PartialEq, Eq)]
pub struct Header {
    pub name: Vec<u8>,
    pub value: Vec<u8>,
}

impl View for Header {
    type V = (Seq<u8>, Seq<u8>);

    open spec fn view(&self) -> (Seq<u8>, Seq<u8>) {
        (self.name@, self.value@)
    }
}

impl Header {
    /// An independent copy of the header.
    pub fn duplicate(&self) -> (r: Header)
        ensures
            r@ == self@,
    {
        Header { name: copy_bytes(&self.name), value: copy_bytes(&self.value) }
    }
}

/// A header list as a sequence of (name, value) pairs.
pub open spec fn headers_view(hs: Seq<Header>) -> Seq<(Seq<u8>, Seq<u8>)> {
    Seq::new(hs.len(), |i: int| hs[i]@)
}

/// `x-spam`: the inbound header by which a caller asks for a request to be
/// routed over the auxiliary credentials. It is internal to the relay.
pub open spec fn signal_name() -> Seq<u8> {
    seq![120u8, 45u8, 115u8, 112u8, 97u8, 109u8]
}

/// `authorization`.
pub open spec fn authorization_name() -> Seq<u8> {
    seq![97u8, 117u8, 116u8, 104u8, 111u8, 114u8, 105u8, 122u8, 97u8, 116u8, 105u8, 111u8, 110u8]
}

/// `retry-after`: the response header that says for how many seconds the
/// credential is to stay away from the route.
pub open spec fn retry_after_name() -> Seq<u8> {
    seq![114u8, 101u8, 116u8, 114u8, 121u8, 45u8, 97u8, 102u8, 116u8, 101u8, 114u8]
}

/// `x-ratelimit-remaining`: the response header that counts the requests
/// the route's bucket still allows the credential.
pub open spec fn remaining_name() -> Seq<u8> {
    seq![120u8, 45u8, 114u8, 97u8, 116u8, 101u8, 108u8, 105u8, 109u8, 105u8, 116u8, 45u8, 114u8, 101u8, 109u8, 97u8, 105u8, 110u8, 105u8, 110u8, 103u8]
}

/// `x-ratelimit-reset-after`: the response header that says in how many
/// seconds the route's bucket is filled again.
pub open spec fn reset_after_name() -> Seq<u8> {
    seq![120u8, 45u8, 114u8, 97u8, 116u8, 101u8, 108u8, 105u8, 109u8, 105u8, 116u8, 45u8, 114u8, 101u8, 115u8, 101u8, 116u8, 45u8, 97u8, 102u8, 116u8, 101u8, 114u8]
}

/// Whether some header of the list bears `name`.
pub open spec fn has_name(hs: Seq<(Seq<u8>, Seq<u8>)>, name: Seq<u8>) -> bool {
    exists|i: int| 0 <= i < hs.len() && eq_ignore_case((#[trigger] hs[i]).0, name)
}

/// The list without the headers that bear `name`, the others in order.
pub open spec fn without_name(hs: Seq<(Seq<u8>, Seq<u8>)>, name: Seq<u8>) -> Seq<(Seq<u8>, Seq<u8>)>
    decreases hs.len(),
{
    if hs.len() == 0 {
        Seq::empty()
    } else if eq_ignore_case(hs.last().0, name) {
        without_name(hs.drop_last(), name)
    } else {
        without_name(hs.drop_last(), name).push(hs.last())
    }
}

/// The value of the first header that bears `name`.
pub open spec fn value_of(hs: Seq<(Seq<u8>, Seq<u8>)>, name: Seq<u8>) -> Option<Seq<u8>>
    decreases hs.len(),
{
    if hs.len() == 0 {
        None
    } else if eq_ignore_case(hs[0].0, name) {
        Some(hs[0].1)
    } else {
        value_of(hs.skip(1), name)
    }
}

/// The headers sent upstream for an inbound header list and a token: all
/// inbound headers but the signal header and any authorization the caller
/// supplied, followed by one authorization header that carries the token.
pub open spec fn forwarded(hs: Seq<(Seq<u8>, Seq<u8>)>, token: Seq<u8>) -> Seq<(Seq<u8>, Seq<u8>)> {
    without_name(without_name(hs, signal_name()), authorization_name()).push(
        (authorization_name(), token),
    )
}

/// The seconds that the first header named `name` gives, if it gives any.
pub open spec fn seconds_of(hs: Seq<(Seq<u8>, Seq<u8>)>, name: Seq<u8>) -> Option<u64> {
    match value_of(hs, name) {
        Some(value) => seconds_spec(value),
        None => None,
    }
}

/// For how many seconds a response's headers restrict the credential.
///
/// An explicit `retry-after` decides. Without one, a bucket that reports no
/// requests remaining restricts until it is filled again. Anything else,
/// unreadable values included, is no signal.
pub open spec fn restriction(hs: Seq<(Seq<u8>, Seq<u8>)>) -> Option<u64> {
    match seconds_of(hs, retry_after_name()) {
        Some(seconds) => Some(seconds),
        None => match value_of(hs, remaining_name()) {
            Some(left) => if decimal_spec(left) == Some(0u64) {
                seconds_of(hs, reset_after_name())
            } else {
                None
            },
            None => None,
        },
    }
}

/// The reset time a response's headers announce at time `now`: `now` plus
/// the seconds of the restriction, capped at the largest timestamp; nothing
/// where the headers carry no signal.
pub open spec fn reset_spec(hs: Seq<(Seq<u8>, Seq<u8>)>, now: Timestamp) -> Option<Timestamp> {
    match restriction(hs) {
        Some(seconds) => Some(
            if now + seconds > u64::MAX {
                u64::MAX
            } else {
                (now + seconds) as u64
            },
        ),
        None => None,
    }
}

/// The signal header's name, `x-spam`.
pub fn signal_header_name() -> (r: Vec<u8>)
    ensures
        r@ == signal_name(),
{
    let r: Vec<u8> = vec![120u8, 45u8, 115u8, 112u8, 97u8, 109u8];
    assert(r@ =~= signal_name());
    r
}

/// The name `authorization`.
pub fn authorization_header_name() -> (r: Vec<u8>)
    ensures
        r@ == authorization_name(),
{
    let r: Vec<u8> = vec![
        97u8, 117u8, 116u8, 104u8, 111u8, 114u8, 105u8, 122u8, 97u8, 116u8, 105u8, 111u8, 110u8,
    ];
    assert(r@ =~= authorization_name());
    r
}

/// The name `retry-after`.
pub fn retry_after_header_name() -> (r: Vec<u8>)
    ensures
        r@ == retry_after_name(),
{
    let r: Vec<u8> = vec![114u8, 101u8, 116u8, 114u8, 121u8, 45u8, 97u8, 102u8, 116u8, 101u8, 114u8];
    assert(r@ =~= retry_after_name());
    r
}

/// The name `x-ratelimit-remaining`.
pub fn remaining_header_name() -> (r: Vec<u8>)
    ensures
        r@ == remaining_name(),
{
    let r: Vec<u8> = vec![120u8, 45u8, 114u8, 97u8, 116u8, 101u8, 108u8, 105u8, 109u8, 105u8, 116u8, 45u8, 114u8, 101u8, 109u8, 97u8, 105u8, 110u8, 105u8, 110u8, 103u8];
    assert(r@ =~= remaining_name());
    r
}

/// The name `x-ratelimit-reset-after`.
pub fn reset_after_header_name() -> (r: Vec<u8>)
    ensures
        r@ == reset_after_name(),
{
    let r: Vec<u8> = vec![120u8, 45u8, 114u8, 97u8, 116u8, 101u8, 108u8, 105u8, 109u8, 105u8, 116u8, 45u8, 114u8, 101u8, 115u8, 101u8, 116u8, 45u8, 97u8, 102u8, 116u8, 101u8, 114u8];
    assert(r@ =~= reset_after_name());
    r
}

/// Whether the list holds a header named `name`.
pub fn carries(headers: &Vec<Header>, name: &Vec<u8>) -> (r: bool)
    ensures
        r == has_name(headers_view(headers@), name@),
{
    let mut i: usize = 0;
    while i < headers.len()
        invariant
            i <= headers@.len(),
            forall|j: int| 0 <= j < i ==> !eq_ignore_case((#[trigger] headers_view(headers@)[j]).0, name@),
        decreases headers@.len() - i,
    {
        if same_name(&headers[i].name, name) {
            assert(eq_ignore_case(headers_view(headers@)[i as int].0, name@));
            return true;
        }
        i += 1;
    }
    false
}

/// A copy of the list without the headers named `name`.
pub fn remove_named(headers: &Vec<Header>, name: &Vec<u8>) -> (r: Vec<Header>)
    ensures
        headers_view(r@) == without_name(headers_view(headers@), name@),
{
    let ghost hv = headers_view(headers@);
    let mut out: Vec<Header> = Vec::new();
    let mut i: usize = 0;
    assert(headers_view(out@) =~= without_name(hv.take(0), name@));
    while i < headers.len()
        invariant
            hv == headers_view(headers@),
            i <= headers@.len(),
            headers_view(out@) == without_name(hv.take(i as int), name@),
        decreases headers@.len() - i,
    {
        proof {
            assert(hv.take(i + 1).drop_last() =~= hv.take(i as int));
            assert(hv.take(i + 1).last() == headers@[i as int]@);
        }
        if !same_name(&headers[i].name, name) {
            let ghost prev = out@;
            out.push(headers[i].duplicate());
            assert(headers_view(out@) =~= headers_view(prev).push(headers@[i as int]@));
        }
        i += 1;
    }
    assert(hv.take(i as int) =~= hv);
    out
}

/// The value of the first header named `name`, if there is one.
pub fn find_value(headers: &Vec<Header>, name: &Vec<u8>) -> (r: Option<Vec<u8>>)
    ensures
        match r {
            Some(v) => value_of(headers_view(headers@), name@) == Some(v@),
            None => value_of(headers_view(headers@), name@).is_none(),
        },
{
    let ghost hv = headers_view(headers@);
    let mut i: usize = 0;
    assert(hv.skip(0) =~= hv);
    while i < headers.len()
        invariant
            hv == headers_view(headers@),
            i <= headers@.len(),
            value_of(hv, name@) == value_of(hv.skip(i as int), name@),
        decreases headers@.len() - i,
    {
        proof {
            assert(hv.skip(i as int)[0] == headers@[i as int]@);
            assert(hv.skip(i as int).skip(1) =~= hv.skip(i + 1));
        }
        if same_name(&headers[i].name, name) {
            return Some(copy_bytes(&headers[i].value));
        }
        i += 1;
    }
    None
}

/// The headers to send upstream: the inbound headers without the signal
/// header and without any authorization of the caller's, then the
/// authorization header of the chosen credential.
pub fn forward_headers(headers: &Vec<Header>, token: &Vec<u8>) -> (r: Vec<Header>)
    ensures
        headers_view(r@) == forwarded(headers_view(headers@), token@),
{
    let signal = signal_header_name();
    let authorization = authorization_header_name();
    let kept = remove_named(headers, &signal);
    let mut out = remove_named(&kept, &authorization);
    let ghost prev = out@;
    out.push(Header { name: authorization, value: copy_bytes(token) });
    assert(headers_view(out@) =~= headers_view(prev).push((authorization_name(), token@)));
    out
}

/// The seconds given by the first header named `name`.
pub fn header_seconds(headers: &Vec<Header>, name: &Vec<u8>) -> (r: Option<u64>)
    ensures
        r == seconds_of(headers_view(headers@), name@),
{
    match find_value(headers, name) {
        Some(value) => parse_seconds(&value),
        None => None,
    }
}

/// For how many seconds the response headers restrict the credential.
pub fn observed_restriction(headers: &Vec<Header>) -> (r: Option<u64>)
    ensures
        r == restriction(headers_view(headers@)),
{
    let explicit = header_seconds(headers, &retry_after_header_name());
    if explicit.is_some() {
        return explicit;
    }
    match find_value(headers, &remaining_header_name()) {
        Some(left) => match parse_decimal(&left) {
            Some(0) => header_seconds(headers, &reset_after_header_name()),
            _ => None,
        },
        None => None,
    }
}

/// The reset time that response headers announce, read at time `now`.
pub fn observed_reset(headers: &Vec<Header>, now: Timestamp) -> (r: Option<Timestamp>)
    ensures
        r == reset_spec(headers_view(headers@), now),
{
    match observed_restriction(headers) {
        Some(seconds) => Some(now.saturating_add(seconds)),
        None => None,
    }
}

/// What is left after removing a name holds no header of that name, and
/// holds only headers of the list it was taken from.
pub proof fn lemma_without_name(hs: Seq<(Seq<u8>, Seq<u8>)>, name: Seq<u8>)
    ensures
        !has_name(without_name(hs, name), name),
        forall|i: int|
            0 <= i < without_name(hs, name).len() ==> hs.contains(#[trigger] without_name(hs, name)[i]),
    decreases hs.len(),
{
    if hs.len() > 0 {
        lemma_without_name(hs.drop_last(), name);
        let rest = without_name(hs.drop_last(), name);
        let all = without_name(hs, name);
        assert forall|i: int| 0 <= i < all.len() implies hs.contains(#[trigger] all[i])
            && !eq_ignore_case(all[i].0, name) by {
            if i < rest.len() {
                assert(all[i] == rest[i]);
                assert(hs.drop_last().contains(rest[i]));
                let j = choose|j: int| 0 <= j < hs.drop_last().len() && hs.drop_last()[j] == rest[i];
                assert(hs[j] == rest[i]);
            } else {
                assert(all[i] == hs.last());
                assert(hs[hs.len() - 1] == hs.last());
            }
        }
    }
}

/// The signal header is never among the headers sent upstream, whatever
/// the caller sent and whichever token is used.
pub proof fn lemma_signal_never_forwarded(hs: Seq<(Seq<u8>, Seq<u8>)>, token: Seq<u8>)
    ensures
        !has_name(forwarded(hs, token), signal_name()),
{
    let first = without_name(hs, signal_name());
    let second = without_name(first, authorization_name());
    lemma_without_name(hs, signal_name());
    lemma_without_name(first, authorization_name());
    let out = forwarded(hs, token);
    assert(authorization_name().len() == 13);
    assert(signal_name().len() == 6);
    assert forall|i: int| 0 <= i < out.len() implies !eq_ignore_case((#[trigger] out[i]).0, signal_name()) by {
        if i < second.len() {
            assert(out[i] == second[i]);
            assert(first.contains(second[i]));
            let j = choose|j: int| 0 <= j < first.len() && first[j] == second[i];
            assert(!eq_ignore_case(first[j].0, signal_name()));
        }
    }
}

/// The signal header is never among the headers handed back to the caller.
pub proof fn lemma_signal_never_echoed(hs: Seq<(Seq<u8>, Seq<u8>)>)
    ensures
        !has_name(without_name(hs, signal_name()), signal_name()),
{
    lemma_without_name(hs, signal_name());
}

/// The headers sent upstream carry exactly one authorization header, the
/// last one, and its value is the chosen token.
pub proof fn lemma_forwarded_authorization(hs: Seq<(Seq<u8>, Seq<u8>)>, token: Seq<u8>)
    ensures
        forwarded(hs, token).last() == (authorization_name(), token),
        !has_name(forwarded(hs, token).drop_last(), authorization_name()),
{
    let first = without_name(hs, signal_name());
    lemma_without_name(first, authorization_name());
    assert(forwarded(hs, token).drop_last() =~= without_name(first, authorization_name()));
}

} // verus!
