use vstd::prelude::*;
use crate::records::{
    views,
    IpAddress,
    Message,
    Query,
    QueryV,
    Record,
    RecordType,
    RecordV,
    ResponseCode,
};
use crate::name::{ascii_chars, name_text, Name};
use crate::cache::{best_spec, CacheResponse, CacheResponseV, DnsCache};
use crate::target::{NsProvider, RootsProvider, Target};

verus! {

/// The resolver refuses to recurse into sub-lookups deeper than this.
pub const MAX_RECURSION_DEPTH: u32 = 5;

/// How many candidate targets one query step will try before giving up:
/// a bound on referral chasing that keeps every resolution finite.
pub const MAX_QUERY_STEPS: u32 = 64;

/// Why a resolution failed.
#[derive(PartialEq, Eq, Debug)]
pub enum ResolutionError {
    /// The upstream server said the name does not exist.
    NxDomain,
    /// A logic-level failure: recursion too deep, a delegation loop, no
    /// reachable name server, or inconsistent records.
    ServFail(String),
    /// A socket failure during a backend call, described in the payload.
    IOError(String),
    /// A wire decode failure, described in the payload.
    ProtocolError(String),
}

/// Something that can send one query to one upstream address and await
/// one response: the production backend speaks UDP, tests answer from a
/// table.  Nothing is promised of the response; the resolver validates
/// whatever comes back.
pub trait Backend {
    fn query(&self, target: IpAddress, to_resolve: &Name, record_type: RecordType) -> Result<
        Message,
        ResolutionError,
    >;
}

/// A response is final when it is authoritative and carries answers.
pub open spec fn is_final_spec(m: crate::records::MessageV) -> bool {
    m.authoritative && m.answers.len() > 0
}

/// Whether the resolution can stop at this response: it must be
/// authoritative and its answer section nonempty.
pub fn is_final(answer: &Message) -> (r: bool)
    ensures
        r == is_final_spec(answer@),
{
    answer.authoritative && answer.answers.len() > 0
}

/// A classified backend response: a delegation to follow, or answers to
/// return.
pub enum QueryResponse {
    /// The queried server was not authoritative and returned authority
    /// records, possibly with glue.
    Referral(Vec<Record>, Vec<Record>),
    /// An authoritative response with answer records.
    Answer(Vec<Record>),
}

/// What the resolver does with a backend response, per
/// `classify_response`.
#[verifier::ext_equal]
pub enum QueryResponseV {
    Referral(Seq<RecordV>, Seq<RecordV>),
    Answer(Seq<RecordV>),
}

impl View for QueryResponse {
    type V = QueryResponseV;

    open spec fn view(&self) -> QueryResponseV {
        match self {
            QueryResponse::Referral(ns, glue) => QueryResponseV::Referral(views(ns@), views(glue@)),
            QueryResponse::Answer(a) => QueryResponseV::Answer(views(a@)),
        }
    }
}

/// Classifies one backend response: `NXDomain` is surfaced as the
/// `NxDomain` error, a final response yields its answers, and anything
/// else is a referral carrying the authority and additional sections.
pub fn classify_response(message: &Message) -> (r: Result<QueryResponse, ResolutionError>)
    ensures
        message@.response_code == ResponseCode::NxDomain <==> r == Err::<
            QueryResponse,
            ResolutionError,
        >(ResolutionError::NxDomain),
        message@.response_code != ResponseCode::NxDomain && is_final_spec(message@) ==> (r
            matches Ok(q) && q@ == QueryResponseV::Answer(message@.answers)),
        message@.response_code != ResponseCode::NxDomain && !is_final_spec(message@) ==> (r
            matches Ok(q) && q@ == QueryResponseV::Referral(
            message@.name_servers,
            message@.additionals,
        )),
{
    if message.response_code == ResponseCode::NxDomain {
        return Err(ResolutionError::NxDomain);
    }
    if is_final(message) {
        let answers = crate::records::clone_records(&message.answers);
        return Ok(QueryResponse::Answer(answers));
    }
    let ns = crate::records::clone_records(&message.name_servers);
    let glue = crate::records::clone_records(&message.additionals);
    Ok(QueryResponse::Referral(ns, glue))
}

/// The address the resolver takes from a sub-resolution: the IPv4
/// address of the last record, when that record carries one.
pub open spec fn first_ip_spec(rs: Seq<RecordV>) -> Option<IpAddress> {
    if rs.len() == 0 {
        None
    } else if rs.last().rdata matches Some(crate::records::RDataV::A(_)) {
        Some(IpAddress::V4(rs.last().rdata->Some_0->A_0))
    } else {
        None
    }
}

/// Picks the address to contact out of a sub-resolution's answers: the
/// last record must carry an IPv4 address; an empty list or other data
/// is a server failure.
pub fn first_ip(result: &mut Vec<Record>) -> (r: Result<IpAddress, ResolutionError>)
    ensures
        old(result)@.len() > 0 ==> final(result)@ =~= old(result)@.drop_last(),
        old(result)@.len() == 0 ==> final(result)@ =~= old(result)@,
        match r {
            Ok(ip) => first_ip_spec(views(old(result)@)) == Some(ip),
            Err(e) => first_ip_spec(views(old(result)@)) is None && (e matches
            ResolutionError::ServFail(_)),
        },
{
    match result.pop() {
        None => Err(ResolutionError::ServFail(String::from_str("unexpected empty result"))),
        Some(record) => match record.rdata {
            Some(crate::records::RData::A(bits)) => {
                proof {
                    assert(views(old(result)@).last() == record@);
                }
                Ok(IpAddress::V4(bits))
            },
            _ => {
                proof {
                    assert(views(old(result)@).last() == record@);
                }
                Err(
                    ResolutionError::ServFail(
                        String::from_str("no rdata, or wrong type of rdata"),
                    ),
                )
            },
        },
    }
}

/// The query key occurs in the seen list.
pub open spec fn seen_has(s: Seq<QueryV>, q: QueryV) -> bool {
    exists|i: int| 0 <= i < s.len() && s[i] == q
}

/// `a` is a prefix of `b`.
pub open spec fn is_prefix_of(a: Seq<QueryV>, b: Seq<QueryV>) -> bool {
    a.len() <= b.len() && forall|i: int| 0 <= i < a.len() ==> a[i] == b[i]
}

/// Whether the query key was already visited in this resolution.
fn contains_query(seen: &Vec<Query>, q: &Query) -> (r: bool)
    ensures
        r == seen_has(views(seen@), q@),
{
    let mut i: usize = 0;
    while i < seen.len()
        invariant
            0 <= i <= seen@.len(),
            forall|j: int| 0 <= j < i ==> views(seen@)[j] != q@,
        decreases seen@.len() - i,
    {
        if &seen[i] == q {
            proof {
                assert(views(seen@)[i as int] == q@);
            }
            return true;
        }
        proof {
            assert(views(seen@)[i as int] == seen@[i as int]@);
        }
        i += 1;
    }
    false
}

/// The text of a record type, for messages.
pub open spec fn record_type_text_spec(rt: RecordType) -> Seq<char> {
    match rt {
        RecordType::A => "A"@,
        RecordType::Aaaa => "AAAA"@,
        RecordType::Ns => "NS"@,
        RecordType::Other(_) => "OTHER"@,
    }
}

/// The text of a record type, per `record_type_text_spec`.
fn record_type_text(rt: RecordType) -> (r: &'static str)
    ensures
        r@ == record_type_text_spec(rt),
{
    match rt {
        RecordType::A => "A",
        RecordType::Aaaa => "AAAA",
        RecordType::Ns => "NS",
        RecordType::Other(_) => "OTHER",
    }
}

/// The message reported when a resolution meets the same query twice: it
/// names the repeated name and record type.
pub open spec fn seen_message_spec(q: QueryV) -> Seq<char> {
    "Broken DNS config, seen "@ + ascii_chars(name_text(q.to_resolve)) + " "@
        + record_type_text_spec(q.record_type) + " twice"@
}

/// Builds the repeated-query message, per `seen_message_spec`.
fn seen_message(q: &Query) -> (r: String)
    ensures
        r@ == seen_message_spec(q@),
{
    let mut m = String::from_str("Broken DNS config, seen ");
    let shown = q.to_resolve.to_display();
    m.append(shown.as_str());
    m.append(" ");
    m.append(record_type_text(q.record_type));
    m.append(" twice");
    proof {
        assert(m@ =~= seen_message_spec(q@));
    }
    m
}

/// Each key of `b` beyond the prefix `a` is fresh: it differs from every
/// key before it, so no key is ever entered twice.
pub open spec fn grows_fresh(a: Seq<QueryV>, b: Seq<QueryV>) -> bool {
    &&& is_prefix_of(a, b)
    &&& forall|j: int| a.len() <= j < b.len() ==> !seen_has(b.take(j), #[trigger] b[j])
}

/// Fresh growth composes.
pub proof fn lemma_grows_fresh_trans(a: Seq<QueryV>, b: Seq<QueryV>, c: Seq<QueryV>)
    requires
        grows_fresh(a, b),
        grows_fresh(b, c),
    ensures
        grows_fresh(a, c),
{
    assert forall|j: int| a.len() <= j < c.len() implies !seen_has(c.take(j), #[trigger] c[j]) by {
        if j < b.len() {
            assert(c.take(j) =~= b.take(j));
            assert(c[j] == b[j]);
        }
    }
}

/// The provider the resolver currently draws candidate targets from.
enum Candidates {
    Roots(RootsProvider),
    Ns(NsProvider),
}

impl Candidates {
    /// The next candidate target from the current provider.
    fn next(self) -> (Self, Result<Option<Target>, ResolutionError>) {
        match self {
            Candidates::Roots(mut p) => {
                let r = p.next();
                (Candidates::Roots(p), r)
            },
            Candidates::Ns(mut p) => {
                let r = p.next();
                (Candidates::Ns(p), r)
            },
        }
    }
}

/// The recursive resolver: its upstream backend, the root addresses the
/// walk starts from, and the shared DNS cache.  Immutable after
/// construction except for the cache.
pub struct RecursiveResolver<B: Backend> {
    backend: B,
    roots: Vec<IpAddress>,
    cache: DnsCache,
}

impl<B: Backend> RecursiveResolver<B> {
    /// The resolver's well-formedness: its cache is well-formed.
    pub closed spec fn wf(&self) -> bool {
        self.cache.wf()
    }

    /// The resolver's cache state.
    pub closed spec fn cache_view(&self) -> Seq<(crate::records::QueryV, crate::cache::EntryV)> {
        self.cache@
    }

    /// The root addresses the resolver was built with.
    pub closed spec fn roots_view(&self) -> Seq<IpAddress> {
        self.roots@
    }

    /// The backend the resolver was built with.
    pub closed spec fn backend_view(&self) -> B {
        self.backend
    }

    /// A resolver over the given backend and root addresses, with a
    /// fresh cache.
    pub fn with_backend(backend: B, roots: Vec<IpAddress>, cache_capacity: usize) -> (r:
        RecursiveResolver<B>)
        requires
            cache_capacity >= 1,
        ensures
            r.wf(),
            r.cache_view() =~= Seq::<(crate::records::QueryV, crate::cache::EntryV)>::empty(),
            r.roots_view() == roots@,
            r.backend_view() == backend,
    {
        RecursiveResolver { backend, roots, cache: DnsCache::new(cache_capacity) }
    }

    /// Resolves one query: walks the DNS hierarchy from the cache's best
    /// starting point, following referrals, resolving glueless NS names
    /// by sub-queries, and caching what it learns.  An authoritative
    /// cache hit is returned as-is; only the cache is ever mutated.
    pub fn resolve(&mut self, to_resolve: &Name, record_type: RecordType, now: u64) -> (r: Result<
        Vec<Record>,
        ResolutionError,
    >)
        requires
            old(self).wf(),
            now <= u64::MAX - (u32::MAX as u64),
        ensures
            final(self).wf(),
            final(self).roots_view() == old(self).roots_view(),
            final(self).backend_view() == old(self).backend_view(),
            best_spec(
                old(self).cache_view(),
                (QueryV { to_resolve: to_resolve@, record_type }),
                now,
            ) matches CacheResponseV::Authoritative(rs) ==> (r matches Ok(v) && views(v@) == rs),
    {
        let mut seen: Vec<Query> = Vec::new();
        proof {
            assert(views(seen@).len() == 0);
            assert(!seen_has(
                views(seen@),
                (QueryV { to_resolve: to_resolve@, record_type }),
            ));
        }
        self.resolve_inner(to_resolve, record_type, &mut seen, 1, now)
    }

    /// One step of the per-query state machine.  The `seen` list grows
    /// by fresh keys only, with this query's key entered exactly once; a
    /// repeated key is refused with a message naming it; a call deeper
    /// than `MAX_RECURSION_DEPTH` fails without touching anything; an
    /// authoritative cache hit returns exactly the cached records.
    fn resolve_inner(
        &mut self,
        to_resolve: &Name,
        record_type: RecordType,
        seen: &mut Vec<Query>,
        depth: u32,
        now: u64,
    ) -> (r: Result<Vec<Record>, ResolutionError>)
        requires
            old(self).wf(),
            now <= u64::MAX - (u32::MAX as u64),
            1 <= depth,
        ensures
            final(self).wf(),
            final(self).roots_view() == old(self).roots_view(),
            final(self).backend_view() == old(self).backend_view(),
            grows_fresh(views(old(seen)@), views(final(seen)@)),
            depth > MAX_RECURSION_DEPTH ==> (r matches Err(ResolutionError::ServFail(_)))
                && final(seen)@ =~= old(seen)@,
            depth <= MAX_RECURSION_DEPTH && seen_has(
                views(old(seen)@),
                (QueryV { to_resolve: to_resolve@, record_type }),
            ) ==> (r matches Err(ResolutionError::ServFail(m)) && m@ == seen_message_spec(
                (QueryV { to_resolve: to_resolve@, record_type }),
            )) && final(seen)@ =~= old(seen)@,
            depth <= MAX_RECURSION_DEPTH && !seen_has(
                views(old(seen)@),
                (QueryV { to_resolve: to_resolve@, record_type }),
            ) ==> views(final(seen)@).len() > views(old(seen)@).len() && (forall|j: int|
                0 <= j < views(final(seen)@).len() ==> ((views(final(seen)@)[j] == (QueryV {
                    to_resolve: to_resolve@,
                    record_type,
                })) <==> j == views(old(seen)@).len())),
            depth <= MAX_RECURSION_DEPTH && !seen_has(
                views(old(seen)@),
                (QueryV { to_resolve: to_resolve@, record_type }),
            ) ==> (best_spec(
                old(self).cache_view(),
                (QueryV { to_resolve: to_resolve@, record_type }),
                now,
            ) matches CacheResponseV::Authoritative(rs) ==> (r matches Ok(v) && views(v@)
                == rs)),
        decreases MAX_RECURSION_DEPTH + 1 - depth, 1int,
    {
        if depth > MAX_RECURSION_DEPTH {
            return Err(
                ResolutionError::ServFail(String::from_str("Refusing to recurse deeper than 5")),
            );
        }
        let ghost qv0 = QueryV { to_resolve: to_resolve@, record_type };
        let ghost cache0 = self.cache_view();
        let ghost roots0 = self.roots_view();
        let ghost backend0 = self.backend_view();
        let query_key = Query { to_resolve: to_resolve.clone(), record_type };
        proof {
            assert(query_key@ =~= qv0);
        }
        if contains_query(seen, &query_key) {
            return Err(ResolutionError::ServFail(seen_message(&query_key)));
        }
        let ghost seen0 = views(seen@);
        seen.push(query_key.clone());
        proof {
            assert(views(seen@)[seen0.len() as int] == query_key@);
            assert(seen_has(views(seen@), qv0));
            assert(is_prefix_of(seen0, views(seen@))) by {
                assert(forall|i: int|
                    0 <= i < seen0.len() ==> views(seen@)[i] == seen@[i]@ && seen0[i] == seen@[i]@);
            }
            assert(grows_fresh(seen0, views(seen@))) by {
                assert(views(seen@).take(seen0.len() as int) =~= seen0);
            }
            assert forall|j: int| 0 <= j < views(seen@).len() implies ((views(seen@)[j] == qv0)
                <==> j == seen0.len()) by {
                if j < seen0.len() && views(seen@)[j] == qv0 {
                    assert(seen0[j] == qv0);
                    assert(seen_has(seen0, qv0));
                }
            }
        }
        let ghost bs = best_spec(cache0, qv0, now);
        let mut candidates: Candidates = match self.cache.get_best_record(&query_key, now) {
            CacheResponse::Authoritative(records) => {
                proof {
                    assert(bs == CacheResponseV::Authoritative(views(records@)));
                }
                return Ok(records);
            },
            CacheResponse::Referral(ns, glue) => Candidates::Ns(NsProvider::new(ns, glue)),
            CacheResponse::Nothing => Candidates::Roots(RootsProvider::new(&self.roots)),
        };
        proof {
            assert(!(bs matches CacheResponseV::Authoritative(_)));
        }
        let mut steps: u32 = MAX_QUERY_STEPS;
        loop
            invariant
                self.wf(),
                self.roots_view() == roots0,
                self.backend_view() == backend0,
                roots0 == old(self).roots_view(),
                backend0 == old(self).backend_view(),
                now <= u64::MAX - (u32::MAX as u64),
                1 <= depth <= MAX_RECURSION_DEPTH,
                qv0 == (QueryV { to_resolve: to_resolve@, record_type }),
                grows_fresh(seen0, views(seen@)),
                seen_has(views(seen@), qv0),
                views(seen@).len() > seen0.len(),
                seen0 == views(old(seen)@),
                !seen_has(seen0, qv0),
                forall|j: int|
                    0 <= j < views(seen@).len() ==> (((#[trigger] views(seen@)[j]) == qv0) <==> j
                        == seen0.len()),
                bs == best_spec(old(self).cache_view(), qv0, now),
                !(bs matches CacheResponseV::Authoritative(_)),
            decreases steps,
        {
            if steps == 0 {
                return Err(
                    ResolutionError::ServFail(String::from_str("no more nameservers to try")),
                );
            }
            steps = steps - 1;
            let (c2, next) = candidates.next();
            candidates = c2;
            let target = match next {
                Err(e) => return Err(e),
                Ok(None) => {
                    return Err(
                        ResolutionError::ServFail(
                            String::from_str("no more nameservers to try"),
                        ),
                    );
                },
                Ok(Some(t)) => t,
            };
            let ghost seen_pre = views(seen@);
            let ip_result = self.target_to_ip(target, seen, depth, now);
            proof {
                lemma_grows_fresh_trans(seen0, seen_pre, views(seen@));
                assert forall|j: int| 0 <= j < views(seen@).len() implies (((
                #[trigger] views(seen@)[j]) == qv0) <==> j == seen0.len()) by {
                    if j < seen_pre.len() {
                        assert(views(seen@)[j] == seen_pre[j]);
                    } else {
                        assert(!seen_has(views(seen@).take(j), views(seen@)[j]));
                        assert(views(seen@).take(j)[seen0.len() as int] == qv0);
                        if views(seen@)[j] == qv0 {
                            assert(seen_has(views(seen@).take(j), views(seen@)[j]));
                        }
                    }
                }
            }
            let ip = match ip_result {
                Err(e) => return Err(e),
                Ok(ip) => ip,
            };
            let message = match self.backend.query(ip, to_resolve, record_type) {
                Err(e) => return Err(e),
                Ok(m) => m,
            };
            let response = match classify_response(&message) {
                Err(e) => return Err(e),
                Ok(qr) => qr,
            };
            match response {
                QueryResponse::Referral(ns, glue) => {
                    let ns2 = crate::records::clone_records(&ns);
                    let glue2 = crate::records::clone_records(&glue);
                    self.cache.store_referral(ns, glue, to_resolve, now);
                    candidates = Candidates::Ns(NsProvider::new(ns2, glue2));
                },
                QueryResponse::Answer(answers) => {
                    let stored = crate::records::clone_records(&answers);
                    let qk = Query { to_resolve: to_resolve.clone(), record_type };
                    self.cache.store(qk, stored, now);
                    return Ok(answers);
                },
            }
        }
    }

    /// Converts one target to an address to contact: an IP target as it
    /// is; an NS name by a sub-resolution one level deeper, taking the
    /// address of the last A record of its result.
    fn target_to_ip(
        &mut self,
        target: Target,
        seen: &mut Vec<Query>,
        depth: u32,
        now: u64,
    ) -> (r: Result<IpAddress, ResolutionError>)
        requires
            old(self).wf(),
            now <= u64::MAX - (u32::MAX as u64),
            1 <= depth <= MAX_RECURSION_DEPTH,
        ensures
            final(self).wf(),
            final(self).roots_view() == old(self).roots_view(),
            final(self).backend_view() == old(self).backend_view(),
            grows_fresh(views(old(seen)@), views(final(seen)@)),
            target matches Target::Ip(ip) ==> (r == Ok::<IpAddress, ResolutionError>(ip)
                && final(seen)@ =~= old(seen)@),
        decreases MAX_RECURSION_DEPTH + 1 - depth, 0int,
    {
        match target {
            Target::Ip(ip) => Ok(ip),
            Target::Name(name) => {
                let mut result = match self.resolve_inner(&name, RecordType::A, seen, depth + 1, now)
                {
                    Err(e) => return Err(e),
                    Ok(rs) => rs,
                };
                first_ip(&mut result)
            },
        }
    }
}

} // verus!
