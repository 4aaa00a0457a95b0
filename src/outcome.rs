//! Outcomes of outbound calls and their reconciliation: the primary's
//! outcome alone decides what the caller gets; the shadows only feed the
//! diff verdict.

use vstd::prelude::*;

verus! {

#[verifier::external_type_specification]
#[verifier::external_body]
pub struct ExResponseParts(http::response::Parts);

/// A destination's response, with its body fully buffered.
#[derive(Debug)]
pub struct ProxyResponse {
    pub head: http::response::Parts,
    pub body: Vec<u8>,
}

/// What one outbound call produced.
#[derive(Debug)]
pub enum OutboundOutcome {
    Success(ProxyResponse),
    UpstreamError(String),
    TimedOut,
}

/// How the shadows compared with the primary, for observability only.
#[derive(PartialEq, Eq, Structural, Clone, Copy, Debug)]
pub enum Verdict {
    Match,
    Mismatch,
    Inconclusive,
}

/// The failures a caller can see.
#[derive(Debug, PartialEq, Eq)]
pub enum RoutingError {
    RouteNotFound,
    PrimaryUpstreamError(String),
    PrimaryTimeout,
}

/// The response (or error) handed to the caller, and the diff verdict.
#[derive(Debug)]
pub struct Reconciliation {
    pub response: Result<ProxyResponse, RoutingError>,
    pub verdict: Verdict,
}

/// The HTTP status of the synthetic response that reports an error to the
/// caller: not found for a path without a route, bad gateway for a failed
/// primary, gateway timeout for a primary that did not answer in time.
pub open spec fn error_status(e: RoutingError) -> u16 {
    match e {
        RoutingError::RouteNotFound => 404,
        RoutingError::PrimaryUpstreamError(_) => 502,
        RoutingError::PrimaryTimeout => 504,
    }
}

pub fn status_for_error(e: &RoutingError) -> (r: u16)
    ensures
        r == error_status(*e),
{
    match e {
        RoutingError::RouteNotFound => 404,
        RoutingError::PrimaryUpstreamError(_) => 502,
        RoutingError::PrimaryTimeout => 504,
    }
}

/// A shadow that answered with a body other than the primary's.
pub open spec fn shadow_differs(primary_body: Seq<u8>, o: OutboundOutcome) -> bool {
    match o {
        OutboundOutcome::Success(r) => r.body@ != primary_body,
        _ => false,
    }
}

/// A shadow that failed or timed out.
pub open spec fn shadow_failed(o: OutboundOutcome) -> bool {
    !(o is Success)
}

/// A successful shadow that disagrees is a mismatch, even where another
/// shadow failed; otherwise a failed shadow leaves the comparison
/// inconclusive; otherwise all agree.
pub open spec fn verdict_of(primary_body: Seq<u8>, shadows: Seq<OutboundOutcome>) -> Verdict {
    if exists|i: int| 0 <= i < shadows.len() && shadow_differs(primary_body, #[trigger] shadows[i]) {
        Verdict::Mismatch
    } else if exists|i: int| 0 <= i < shadows.len() && shadow_failed(#[trigger] shadows[i]) {
        Verdict::Inconclusive
    } else {
        Verdict::Match
    }
}

/// The caller-visible result is decided by the primary alone.
pub open spec fn response_of(primary: OutboundOutcome) -> Result<ProxyResponse, RoutingError> {
    match primary {
        OutboundOutcome::Success(r) => Ok(r),
        OutboundOutcome::UpstreamError(m) => Err(RoutingError::PrimaryUpstreamError(m)),
        OutboundOutcome::TimedOut => Err(RoutingError::PrimaryTimeout),
    }
}

pub open spec fn reconciliation_of(outcomes: Seq<OutboundOutcome>) -> Reconciliation
    recommends
        outcomes.len() > 0,
{
    Reconciliation {
        response: response_of(outcomes[0]),
        verdict: match outcomes[0] {
            OutboundOutcome::Success(r) => verdict_of(r.body@, outcomes.skip(1)),
            _ => Verdict::Inconclusive,
        },
    }
}

/// Byte-for-byte equality of two bodies.
pub fn same_body(a: &Vec<u8>, b: &Vec<u8>) -> (r: bool)
    ensures
        r == (a@ == b@),
{
    if a.len() != b.len() {
        return false;
    }
    let mut i: usize = 0;
    while i < a.len()
        invariant
            a@.len() == b@.len(),
            i <= a@.len(),
            a@.take(i as int) == b@.take(i as int),
        decreases a@.len() - i,
    {
        if a[i] != b[i] {
            return false;
        }
        assert(a@.take(i + 1) == a@.take(i as int).push(a@[i as int]));
        assert(b@.take(i + 1) == b@.take(i as int).push(b@[i as int]));
        i += 1;
    }
    assert(a@ == a@.take(i as int));
    assert(b@ == b@.take(i as int));
    true
}

/// Compares every shadow outcome with the primary's body.
pub fn compare_shadows(primary_body: &Vec<u8>, shadows: &Vec<OutboundOutcome>) -> (v: Verdict)
    ensures
        v == verdict_of(primary_body@, shadows@),
{
    let mut differs = false;
    let mut failed = false;
    let mut i: usize = 0;
    while i < shadows.len()
        invariant
            i <= shadows@.len(),
            differs == exists|j: int| 0 <= j < i && shadow_differs(primary_body@, #[trigger] shadows@[j]),
            failed == exists|j: int| 0 <= j < i && shadow_failed(#[trigger] shadows@[j]),
        decreases shadows@.len() - i,
    {
        match &shadows[i] {
            OutboundOutcome::Success(r) => {
                if !same_body(&r.body, primary_body) {
                    differs = true;
                }
            },
            _ => {
                failed = true;
            },
        }
        i += 1;
    }
    if differs {
        Verdict::Mismatch
    } else if failed {
        Verdict::Inconclusive
    } else {
        Verdict::Match
    }
}

/// Turns the outcomes of one fan-out, primary first, into what the caller gets.
pub fn reconcile(outcomes: Vec<OutboundOutcome>) -> (r: Reconciliation)
    requires
        outcomes@.len() > 0,
    ensures
        r == reconciliation_of(outcomes@),
{
    let ghost all = outcomes@;
    let mut shadows = outcomes;
    let primary = shadows.remove(0);
    assert(shadows@ == all.skip(1));
    match primary {
        OutboundOutcome::Success(resp) => {
            let verdict = compare_shadows(&resp.body, &shadows);
            Reconciliation { response: Ok(resp), verdict }
        },
        OutboundOutcome::UpstreamError(m) => Reconciliation {
            response: Err(RoutingError::PrimaryUpstreamError(m)),
            verdict: Verdict::Inconclusive,
        },
        OutboundOutcome::TimedOut => Reconciliation {
            response: Err(RoutingError::PrimaryTimeout),
            verdict: Verdict::Inconclusive,
        },
    }
}

/// When the primary and every shadow succeed with the same body, the caller
/// gets the primary's response and the verdict is a match.
pub proof fn lemma_all_shadows_match(outcomes: Seq<OutboundOutcome>)
    requires
        outcomes.len() > 0,
        outcomes[0] is Success,
        forall|i: int|
            1 <= i < outcomes.len() ==> (#[trigger] outcomes[i] is Success
                && outcomes[i]->Success_0.body@ == outcomes[0]->Success_0.body@),
    ensures
        reconciliation_of(outcomes).response == Ok::<ProxyResponse, RoutingError>(
            outcomes[0]->Success_0,
        ),
        reconciliation_of(outcomes).verdict == Verdict::Match,
{
    let shadows = outcomes.skip(1);
    let body = outcomes[0]->Success_0.body@;
    assert forall|i: int| 0 <= i < shadows.len() implies !shadow_differs(
        body,
        #[trigger] shadows[i],
    ) && !shadow_failed(shadows[i]) by {
        assert(shadows[i] == outcomes[i + 1]);
    }
}

/// A shadow whose body differs from the primary's never changes what the
/// caller gets: the primary's response is returned and the verdict is a
/// mismatch.
pub proof fn lemma_mismatch_keeps_primary(outcomes: Seq<OutboundOutcome>, i: int)
    requires
        outcomes.len() > 0,
        outcomes[0] is Success,
        1 <= i < outcomes.len(),
        outcomes[i] is Success,
        outcomes[i]->Success_0.body@ != outcomes[0]->Success_0.body@,
    ensures
        reconciliation_of(outcomes).response == Ok::<ProxyResponse, RoutingError>(
            outcomes[0]->Success_0,
        ),
        reconciliation_of(outcomes).verdict == Verdict::Mismatch,
{
    let shadows = outcomes.skip(1);
    assert(shadows[i - 1] == outcomes[i]);
    assert(shadow_differs(outcomes[0]->Success_0.body@, shadows[i - 1]));
}

/// A primary that timed out or failed fails the whole call, whatever the
/// shadows did, a shadow's success included.
pub proof fn lemma_primary_failure_fails_call(outcomes: Seq<OutboundOutcome>)
    requires
        outcomes.len() > 0,
        !(outcomes[0] is Success),
    ensures
        reconciliation_of(outcomes).response is Err,
        outcomes[0] is TimedOut ==> reconciliation_of(outcomes).response
            == Err::<ProxyResponse, RoutingError>(RoutingError::PrimaryTimeout),
        outcomes[0] is UpstreamError ==> reconciliation_of(outcomes).response
            == Err::<ProxyResponse, RoutingError>(
            RoutingError::PrimaryUpstreamError(outcomes[0]->UpstreamError_0),
        ),
{
}

/// A shadow that timed out or failed never fails the call: the primary's
/// response is returned. Where no successful shadow disagrees with the
/// primary, the verdict is inconclusive.
pub proof fn lemma_shadow_failure_keeps_primary(outcomes: Seq<OutboundOutcome>, i: int)
    requires
        outcomes.len() > 0,
        outcomes[0] is Success,
        1 <= i < outcomes.len(),
        !(outcomes[i] is Success),
    ensures
        reconciliation_of(outcomes).response == Ok::<ProxyResponse, RoutingError>(
            outcomes[0]->Success_0,
        ),
        (forall|j: int|
            1 <= j < outcomes.len() ==> !shadow_differs(
                outcomes[0]->Success_0.body@,
                #[trigger] outcomes[j],
            )) ==> reconciliation_of(outcomes).verdict == Verdict::Inconclusive,
{
    let shadows = outcomes.skip(1);
    let body = outcomes[0]->Success_0.body@;
    assert(shadows[i - 1] == outcomes[i]);
    assert(shadow_failed(shadows[i - 1]));
    if forall|j: int| 1 <= j < outcomes.len() ==> !shadow_differs(body, #[trigger] outcomes[j]) {
        assert forall|j: int| 0 <= j < shadows.len() implies !shadow_differs(
            body,
            #[trigger] shadows[j],
        ) by {
            assert(shadows[j] == outcomes[j + 1]);
        }
    }
}

/// With a single destination the proxy is a pass-through: its response comes
/// back as it was (head and body alike), and its failure is the call's.
pub proof fn lemma_single_destination_pass_through(o: OutboundOutcome)
    ensures
        reconciliation_of(seq![o]).response == response_of(o),
        o is Success ==> reconciliation_of(seq![o]).response == Ok::<ProxyResponse, RoutingError>(
            o->Success_0,
        ),
        o is Success ==> reconciliation_of(seq![o]).verdict == Verdict::Match,
{
    assert(seq![o].skip(1).len() == 0);
}

} // verus!
