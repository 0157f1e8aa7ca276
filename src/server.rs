//! The decisions of the query server: reading a request path, checking the
//! query, choosing the response, and the backoff between bind attempts.
use vstd::prelude::*;
use vstd::arithmetic::power2::{lemma_pow2_unfold, pow2};

use crate::corpus::Page;
use crate::engine::{resolved, scan_length, Engine, ResolvedMatch};
use crate::score::ScoreBits;

verus! {

/// Binary32 pattern of the default similarity threshold, thirty-four hundredths.
pub const DEFAULT_TEMPERATURE: u32 = 0x3eae_147b;

/// Default number of corpus positions scanned per query.
pub const DEFAULT_MAX_RESULTS: usize = 10;

/// Default bounds on the length of a normalised query, in bytes.
pub const DEFAULT_MIN_QUERY_LENGTH: usize = 1;

pub const DEFAULT_MAX_QUERY_LENGTH: usize = 256;

/// Default first wait after a failed bind, in seconds.
pub const DEFAULT_BIND_DELAY: u64 = 1;

/// Longest wait between bind attempts, in seconds.
pub const DEFAULT_BIND_DELAY_CAP: u64 = 60;

/// The numbers that steer the server.
#[derive(Clone, Copy, Debug, PartialEq, Eq, Structural)]
pub struct ServerConfig {
    /// Binary32 pattern of the least score that counts as a match.
    pub temperature: u32,
    /// Number of corpus positions scanned per query.
    pub max_results: usize,
    pub min_query_length: usize,
    pub max_query_length: usize,
    /// With `true` a query is accepted when its length lies within both
    /// bounds; with `false`, when it meets either bound, which accepts nearly
    /// every length.
    pub strict_length_check: bool,
    pub bind_delay: u64,
    pub bind_delay_cap: u64,
}

impl ServerConfig {
    /// The configuration the service runs with.
    pub fn standard() -> (r: ServerConfig)
        ensures
            r.temperature == DEFAULT_TEMPERATURE,
            r.max_results == DEFAULT_MAX_RESULTS,
            r.min_query_length == DEFAULT_MIN_QUERY_LENGTH,
            r.max_query_length == DEFAULT_MAX_QUERY_LENGTH,
            !r.strict_length_check,
            r.bind_delay == DEFAULT_BIND_DELAY,
            r.bind_delay_cap == DEFAULT_BIND_DELAY_CAP,
    {
        ServerConfig {
            temperature: DEFAULT_TEMPERATURE,
            max_results: DEFAULT_MAX_RESULTS,
            min_query_length: DEFAULT_MIN_QUERY_LENGTH,
            max_query_length: DEFAULT_MAX_QUERY_LENGTH,
            strict_length_check: false,
            bind_delay: DEFAULT_BIND_DELAY,
            bind_delay_cap: DEFAULT_BIND_DELAY_CAP,
        }
    }
}

/// The path prefix of a search request, `/search?q=`.
pub open spec fn search_prefix() -> Seq<u8> {
    seq![47u8, 115u8, 101u8, 97u8, 114u8, 99u8, 104u8, 63u8, 113u8, 61u8]
}

/// The encoded space, `%20`.
pub open spec fn encoded_space() -> Seq<u8> {
    seq![37u8, 50u8, 48u8]
}

/// What follows the search prefix in a request path; empty for any other path.
pub open spec fn raw_query(url: Seq<u8>) -> Seq<u8> {
    let p = search_prefix();
    if url.len() >= p.len() && url.subrange(0, p.len() as int) == p {
        url.subrange(p.len() as int, url.len() as int)
    } else {
        Seq::empty()
    }
}

/// `q` with each `%20`, read left to right, replaced by a space.
pub open spec fn normalized(q: Seq<u8>) -> Seq<u8>
    decreases q.len(),
{
    if q.len() == 0 {
        Seq::empty()
    } else if q.len() >= 3 && q.subrange(0, 3) == encoded_space() {
        seq![32u8] + normalized(q.subrange(3, q.len() as int))
    } else {
        seq![q[0]] + normalized(q.subrange(1, q.len() as int))
    }
}

/// Whether a normalised query of `len` bytes is searched.
pub open spec fn length_accepted(len: nat, config: ServerConfig) -> bool {
    if config.strict_length_check {
        config.min_query_length <= len && len <= config.max_query_length
    } else {
        len <= config.max_query_length || len >= config.min_query_length
    }
}

/// What the server makes of one request path.
pub struct QueryPlan {
    /// The query as it stood in the path, echoed in the response.
    pub raw_query: Vec<u8>,
    /// The query with `%20` read as a space, handed to the embedding provider.
    pub query: Vec<u8>,
    /// Whether the query is searched at all.
    pub accepted: bool,
}

/// Outcome code of a response.
#[derive(Clone, Copy, Debug, PartialEq, Eq, Structural)]
pub enum SuccessCode {
    Success,
    Failed,
}

/// The body of a response, but for its timestamp.
pub struct QueryResponse {
    pub code: SuccessCode,
    pub query: Vec<u8>,
    pub resolved: Vec<ResolvedMatch>,
}

/// The code owed for a query: a query the length check refused is answered
/// with no match and `Success`; a searched query whose scores are missing
/// (the provider failed), or that would scan a position with no document,
/// with no match and `Failed`; any other, with `Success`.
pub open spec fn response_code(
    accepted: bool,
    scores: Option<Seq<u32>>,
    doc_count: nat,
    window_size: usize,
) -> SuccessCode {
    if !accepted {
        SuccessCode::Success
    } else {
        match scores {
            Some(s) => if scan_length(s, window_size) <= doc_count {
                SuccessCode::Success
            } else {
                SuccessCode::Failed
            },
            None => SuccessCode::Failed,
        }
    }
}

/// The matches owed for a query.
pub open spec fn response_matches(
    pages: Seq<Page>,
    accepted: bool,
    scores: Option<Seq<u32>>,
    config: ServerConfig,
) -> Seq<ResolvedMatch> {
    match scores {
        Some(s) => if accepted && scan_length(s, config.max_results) <= pages.len() {
            resolved(pages, s, config.temperature, config.max_results)
        } else {
            Seq::empty()
        },
        None => Seq::empty(),
    }
}

/// The view of a score set that may be missing.
pub open spec fn scores_view(scores: Option<Vec<u32>>) -> Option<Seq<u32>> {
    match scores {
        Some(s) => Some(s@),
        None => None,
    }
}

fn search_prefix_bytes() -> (r: Vec<u8>)
    ensures
        r@ == search_prefix(),
{
    let r: Vec<u8> = vec![47u8, 115u8, 101u8, 97u8, 114u8, 99u8, 104u8, 63u8, 113u8, 61u8];
    assert(r@ =~= search_prefix());
    r
}

/// The query that a request path carries.
pub fn extract_query(url: &[u8]) -> (r: Vec<u8>)
    ensures
        r@ == raw_query(url@),
{
    let p = search_prefix_bytes();
    let mut r: Vec<u8> = Vec::new();
    if url.len() < p.len() {
        return r;
    }
    let mut i: usize = 0;
    while i < p.len()
        invariant
            p@ == search_prefix(),
            r@ == Seq::<u8>::empty(),
            url@.len() >= p@.len(),
            i <= p@.len(),
            url@.subrange(0, i as int) == p@.subrange(0, i as int),
        decreases p@.len() - i,
    {
        if url[i] != p[i] {
            assert(url@.subrange(0, p@.len() as int)[i as int] == url@[i as int]);
            assert(url@.subrange(0, p@.len() as int) != search_prefix());
            return r;
        }
        i = i + 1;
        assert(url@.subrange(0, i as int) =~= p@.subrange(0, i as int));
    }
    assert(p@.subrange(0, i as int) =~= p@);
    let mut j: usize = p.len();
    while j < url.len()
        invariant
            p@.len() <= j <= url@.len(),
            r@ == url@.subrange(p@.len() as int, j as int),
        decreases url@.len() - j,
    {
        r.push(url[j]);
        j = j + 1;
        assert(r@ =~= url@.subrange(p@.len() as int, j as int));
    }
    r
}

/// The query with each `%20` read as a space.
pub fn normalize_query(q: &[u8]) -> (r: Vec<u8>)
    ensures
        r@ == normalized(q@),
{
    let mut r: Vec<u8> = Vec::new();
    let mut i: usize = 0;
    assert(q@.subrange(0, q@.len() as int) =~= q@);
    assert(r@ + normalized(q@) =~= normalized(q@));
    while i < q.len()
        invariant
            i <= q@.len(),
            r@ + normalized(q@.subrange(i as int, q@.len() as int)) == normalized(q@),
        decreases q@.len() - i,
    {
        let ghost rest = q@.subrange(i as int, q@.len() as int);
        if q.len() - i >= 3 && q[i] == 37u8 && q[i + 1] == 50u8 && q[i + 2] == 48u8 {
            assert(rest.subrange(0, 3) =~= encoded_space());
            assert(rest.subrange(3, rest.len() as int) =~= q@.subrange(i + 3, q@.len() as int));
            r.push(32u8);
            i = i + 3;
            proof {
                let after = q@.subrange(i as int, q@.len() as int);
                assert(r@ + normalized(after) =~= (r@.drop_last() + (seq![32u8] + normalized(after))));
            }
        } else {
            assert(!(rest.len() >= 3 && rest.subrange(0, 3) == encoded_space())) by {
                if rest.len() >= 3 && rest.subrange(0, 3) == encoded_space() {
                    assert(rest.subrange(0, 3)[0] == q@[i as int]);
                    assert(rest.subrange(0, 3)[1] == q@[i + 1]);
                    assert(rest.subrange(0, 3)[2] == q@[i + 2]);
                }
            }
            assert(rest.subrange(1, rest.len() as int) =~= q@.subrange(i + 1, q@.len() as int));
            let c = q[i];
            r.push(c);
            i = i + 1;
            proof {
                let after = q@.subrange(i as int, q@.len() as int);
                assert(r@ + normalized(after) =~= (r@.drop_last() + (seq![c] + normalized(after))));
            }
        }
    }
    assert(q@.subrange(i as int, q@.len() as int) =~= Seq::<u8>::empty());
    assert(r@ + Seq::<u8>::empty() =~= r@);
    r
}

/// Whether a normalised query of `len` bytes is searched.
pub fn query_length_accepted(len: usize, config: &ServerConfig) -> (r: bool)
    ensures
        r == length_accepted(len as nat, *config),
{
    if config.strict_length_check {
        config.min_query_length <= len && len <= config.max_query_length
    } else {
        len <= config.max_query_length || len >= config.min_query_length
    }
}

/// Reads a request path: the raw query, its normalised form, and whether it
/// is searched.
pub fn plan_query(url: &[u8], config: &ServerConfig) -> (r: QueryPlan)
    ensures
        r.raw_query@ == raw_query(url@),
        r.query@ == normalized(raw_query(url@)),
        r.accepted == length_accepted(normalized(raw_query(url@)).len(), *config),
{
    let raw = extract_query(url);
    let query = normalize_query(raw.as_slice());
    let accepted = query_length_accepted(query.len(), config);
    QueryPlan { raw_query: raw, query, accepted }
}

/// The response to a planned query, given the scores of its embedding against
/// the store, or `None` when the provider failed.
pub fn respond(engine: &Engine, plan: QueryPlan, scores: Option<Vec<ScoreBits>>, config: &ServerConfig) -> (r:
    QueryResponse)
    ensures
        r.code == response_code(
            plan.accepted,
            scores_view(scores),
            engine.pages().len(),
            config.max_results,
        ),
        r.query@ == plan.raw_query@,
        r.resolved@ == response_matches(
            engine.pages(),
            plan.accepted,
            scores_view(scores),
            *config,
        ),
{
    let QueryPlan { raw_query, query: _, accepted } = plan;
    match scores {
        Some(s) => {
            if !accepted {
                QueryResponse { code: SuccessCode::Success, query: raw_query, resolved: Vec::new() }
            } else if (if config.max_results < s.len() {
                config.max_results
            } else {
                s.len()
            }) <= engine.documents().len() {
                let resolved = engine.resolve(s, config.temperature, config.max_results);
                QueryResponse { code: SuccessCode::Success, query: raw_query, resolved }
            } else {
                QueryResponse { code: SuccessCode::Failed, query: raw_query, resolved: Vec::new() }
            }
        },
        None => {
            let code = if accepted {
                SuccessCode::Failed
            } else {
                SuccessCode::Success
            };
            QueryResponse { code, query: raw_query, resolved: Vec::new() }
        },
    }
}

/// The wait after a failed bind that followed a wait of `delay`: twice as
/// long, but no longer than `cap`.
pub open spec fn next_delay(delay: int, cap: int) -> int {
    if 2 * delay < cap {
        2 * delay
    } else {
        cap
    }
}

/// The wait before bind attempt `k + 1`, after `k` failures, starting from
/// `base`.
pub open spec fn delay_after(base: int, cap: int, k: nat) -> int
    decreases k,
{
    if k == 0 {
        base
    } else {
        next_delay(delay_after(base, cap, (k - 1) as nat), cap)
    }
}

/// The waits between attempts to bind the listening address. A failed bind
/// never ends the attempts: each failure yields a wait, then the next attempt.
pub struct Backoff {
    delay: u64,
    cap: u64,
}

impl Backoff {
    pub closed spec fn delay(&self) -> int {
        self.delay as int
    }

    pub closed spec fn cap(&self) -> int {
        self.cap as int
    }

    /// Waits that start at `base` seconds and grow up to `cap` seconds.
    pub fn new(base: u64, cap: u64) -> (r: Backoff)
        ensures
            r.delay() == base,
            r.cap() == cap,
    {
        Backoff { delay: base, cap }
    }

    /// Records a failed bind; returns the seconds to wait before the next
    /// attempt, and doubles the following wait, up to the cap.
    pub fn on_bind_failure(&mut self) -> (wait: u64)
        ensures
            wait == old(self).delay(),
            final(self).cap() == old(self).cap(),
            final(self).delay() == next_delay(old(self).delay(), old(self).cap()),
    {
        let wait = self.delay;
        if self.delay > self.cap / 2 {
            self.delay = self.cap;
        } else if 2 * self.delay < self.cap {
            self.delay = 2 * self.delay;
        } else {
            self.delay = self.cap;
        }
        wait
    }
}

/// After `k` failed binds the wait is the base delay doubled `k` times, or the
/// cap if that is smaller.
pub proof fn lemma_backoff_schedule(base: nat, cap: nat, k: nat)
    requires
        k >= 1,
    ensures
        delay_after(base as int, cap as int, k) == (if base * pow2(k) < cap {
            (base * pow2(k)) as int
        } else {
            cap as int
        }),
        delay_after(base as int, cap as int, k) <= cap,
    decreases k,
{
    lemma_pow2_unfold(k);
    if k == 1 {
        assert(pow2(0) == 1) by {
            vstd::arithmetic::power2::lemma2_to64();
        }
        assert(base * pow2(1) == 2 * base) by (nonlinear_arith)
            requires
                pow2(1) == 2 * pow2(0),
                pow2(0) == 1,
        ;
        assert(delay_after(base as int, cap as int, 0) == base);
    } else {
        lemma_backoff_schedule(base, cap, (k - 1) as nat);
        let p = pow2((k - 1) as nat);
        assert(base * pow2(k) == 2 * (base * p)) by (nonlinear_arith)
            requires
                pow2(k) == 2 * p,
        ;
        assert(base * p >= 0) by (nonlinear_arith);
        assert(delay_after(base as int, cap as int, k) == next_delay(
            delay_after(base as int, cap as int, (k - 1) as nat),
            cap as int,
        ));
    }
}

} // verus!
