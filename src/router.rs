//! Resolving an inbound path to its destinations, and the outbound URIs.

use vstd::prelude::*;

use crate::outcome::{OutboundOutcome, RoutingError};
use crate::routes::Config;

verus! {

#[verifier::external_type_specification]
#[verifier::external_body]
pub struct ExUri(http::Uri);

#[verifier::external_type_specification]
#[verifier::external_body]
pub struct ExInvalidUri(http::uri::InvalidUri);

/// The URI that `http::Uri` parses from the text; `None` where it refuses
/// the text.
pub uninterp spec fn uri_of(s: Seq<char>) -> Option<http::Uri>;

/// Relies on `http::Uri`'s `FromStr` (`Uri::try_from` on the text's bytes):
/// whether the text parses, and the URI it parses to, depend on the text alone.
#[verifier::external_body]
fn parse_uri(s: &str) -> (r: Result<http::Uri, http::uri::InvalidUri>)
    ensures
        r is Ok <==> uri_of(s@) is Some,
        r is Ok ==> uri_of(s@) == Some(r->Ok_0),
{
    s.parse::<http::Uri>()
}

/// Routes each inbound path to the destinations its route table lists.
#[derive(Clone)]
pub struct ProxyRouter<C> {
    config: C,
}

/// A copy of each string, in order.
fn clone_strings(v: &Vec<String>) -> (r: Vec<String>)
    ensures
        r.deep_view() == v.deep_view(),
{
    let mut r: Vec<String> = Vec::new();
    let mut i: usize = 0;
    while i < v.len()
        invariant
            i <= v@.len(),
            r.deep_view() == v.deep_view().take(i as int),
        decreases v@.len() - i,
    {
        let s = v[i].clone();
        let ghost prev = r.deep_view();
        r.push(s);
        assert(r.deep_view() =~= prev.push(s@));
        i += 1;
        assert(r.deep_view() =~= v.deep_view().take(i as int));
    }
    assert(v.deep_view().take(i as int) =~= v.deep_view());
    r
}

impl<C: Config> ProxyRouter<C> {
    /// The route table this router reads.
    pub closed spec fn routes(&self) -> Map<Seq<char>, Seq<Seq<char>>> {
        self.config.routes()
    }

    pub fn new(config: C) -> (r: Self)
        ensures
            r.routes() == config.routes(),
    {
        ProxyRouter { config }
    }

    /// The destinations of `path`, primary first. A path with no route, or
    /// with an empty one, is `RouteNotFound`: nothing is to be sent anywhere.
    pub fn resolve(&self, path: &String) -> (r: Result<Vec<String>, RoutingError>)
        ensures
            r is Ok <==> self.routes().contains_key(path@) && self.routes()[path@].len() > 0,
            r is Ok ==> r->Ok_0.deep_view() == self.routes()[path@],
            r is Err ==> r->Err_0 is RouteNotFound,
    {
        match self.config.get_dests(path) {
            Some(dests) => {
                if dests.len() == 0 {
                    Err(RoutingError::RouteNotFound)
                } else {
                    Ok(clone_strings(dests))
                }
            },
            None => Err(RoutingError::RouteNotFound),
        }
    }
}

/// The URI of an outbound request to `dest`; `None` where `dest` is not
/// a URI, in which case the call to it fails without being made.
pub fn to_uri(dest: &String) -> (r: Option<http::Uri>)
    ensures
        r == uri_of(dest@),
{
    match parse_uri(dest.as_str()) {
        Ok(u) => Some(u),
        Err(_) => None,
    }
}

/// The URI of each destination, in destination order.
pub fn destination_uris(dests: &Vec<String>) -> (r: Vec<Option<http::Uri>>)
    ensures
        r@.len() == dests@.len(),
        forall|i: int| 0 <= i < dests@.len() ==> #[trigger] r@[i] == uri_of(dests@[i]@),
{
    let mut r: Vec<Option<http::Uri>> = Vec::new();
    let mut i: usize = 0;
    while i < dests.len()
        invariant
            i <= dests@.len(),
            r@.len() == i,
            forall|j: int| 0 <= j < i ==> #[trigger] r@[j] == uri_of(dests@[j]@),
        decreases dests@.len() - i,
    {
        r.push(to_uri(&dests[i]));
        i += 1;
    }
    r
}

/// The outcome of the call to a destination that is not a URI: no request is
/// made, and the call fails as an upstream error that names the destination.
pub fn invalid_destination(dest: &String) -> (r: OutboundOutcome)
    ensures
        r matches OutboundOutcome::UpstreamError(msg) && msg@ == "invalid destination uri "@ + dest@,
{
    let mut msg = String::from_str("invalid destination uri ");
    msg.append(dest.as_str());
    OutboundOutcome::UpstreamError(msg)
}

} // verus!
