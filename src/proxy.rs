use vstd::prelude::*;
use crate::cache::{Cache, CacheKey, fresh_lookup, elapsed_secs, now_nanos};

verus! {

/// What a request is cached under: its path with query, and its method, exactly as
/// received. Scheme and host are not part of it.
#[derive(Clone, Debug, PartialEq, Eq, Hash)]
pub struct HashedRequest {
    pub uri: String,
    pub method: String,
}

impl View for HashedRequest {
    type V = (Seq<char>, Seq<char>);

    open spec fn view(&self) -> (Seq<char>, Seq<char>) {
        (self.uri@, self.method@)
    }
}

impl CacheKey for HashedRequest {
    fn same_key(&self, other: &Self) -> (r: bool) {
        self.uri == other.uri && self.method == other.method
    }
}

impl HashedRequest {
    /// The key of a request with path and query `uri` and method `method`.
    pub fn from_parts(uri: String, method: String) -> (r: HashedRequest)
        ensures
            r@ == (uri@, method@),
    {
        HashedRequest { uri, method }
    }
}

/// One response header: its name and value as bytes.
pub struct Header {
    pub name: Vec<u8>,
    pub value: Vec<u8>,
}

impl View for Header {
    type V = (Seq<u8>, Seq<u8>);

    open spec fn view(&self) -> (Seq<u8>, Seq<u8>) {
        (self.name@, self.value@)
    }
}

/// The bytes of the name `connection`, in lower case.
pub open spec fn connection_name() -> Seq<u8> {
    seq![99u8, 111u8, 110u8, 110u8, 101u8, 99u8, 116u8, 105u8, 111u8, 110u8]
}

/// An ASCII letter in lower case; any other byte unchanged.
pub open spec fn ascii_lower(b: u8) -> u8 {
    if 65 <= b <= 90 {
        (b + 32) as u8
    } else {
        b
    }
}

/// The header name is `connection`, letter case aside.
pub open spec fn is_connection_name(n: Seq<u8>) -> bool {
    n.len() == connection_name().len() && forall|i: int|
        0 <= i < n.len() ==> ascii_lower(#[trigger] n[i]) == connection_name()[i]
}

/// The headers that are passed on to the caller, in order: all but `connection`.
pub open spec fn kept_headers(s: Seq<(Seq<u8>, Seq<u8>)>) -> Seq<(Seq<u8>, Seq<u8>)>
    decreases s.len(),
{
    if s.len() == 0 {
        s
    } else if is_connection_name(s.last().0) {
        kept_headers(s.drop_last())
    } else {
        kept_headers(s.drop_last()).push(s.last())
    }
}

/// The views of a list of headers.
pub open spec fn header_views(s: Seq<Header>) -> Seq<(Seq<u8>, Seq<u8>)> {
    s.map_values(|h: Header| h@)
}

proof fn lemma_kept_headers_clean(s: Seq<(Seq<u8>, Seq<u8>)>)
    ensures
        forall|i: int|
            0 <= i < kept_headers(s).len() ==> !is_connection_name(#[trigger] kept_headers(s)[i].0),
    decreases s.len(),
{
    if s.len() > 0 {
        let prev = kept_headers(s.drop_last());
        lemma_kept_headers_clean(s.drop_last());
        let k = kept_headers(s);
        assert forall|i: int| 0 <= i < k.len() implies !is_connection_name(#[trigger] k[i].0) by {
            if i < prev.len() {
                assert(k[i] == prev[i]);
            }
        }
    }
}

/// Whether a header name is `connection`, letter case aside.
pub fn is_connection_header(name: &Vec<u8>) -> (r: bool)
    ensures
        r == is_connection_name(name@),
{
    let target: Vec<u8> = vec![99u8, 111u8, 110u8, 110u8, 101u8, 99u8, 116u8, 105u8, 111u8, 110u8];
    assert(target@ =~= connection_name());
    if name.len() != target.len() {
        return false;
    }
    let mut i: usize = 0;
    while i < name.len()
        invariant
            name@.len() == target@.len(),
            target@ == connection_name(),
            i <= name@.len(),
            forall|j: int| 0 <= j < i ==> ascii_lower(#[trigger] name@[j]) == connection_name()[j],
        decreases name@.len() - i,
    {
        let b = name[i];
        let lower: u8 = if 65 <= b && b <= 90 {
            b + 32
        } else {
            b
        };
        if lower != target[i] {
            return false;
        }
        i = i + 1;
    }
    true
}

fn copy_bytes(v: &Vec<u8>) -> (r: Vec<u8>)
    ensures
        r@ == v@,
{
    let r = v.clone();
    assert(r@ =~= v@);
    r
}

/// The headers to pass on to the caller: every one but `connection` (letter case
/// aside), in their order.
pub fn strip_connection(headers: &Vec<Header>) -> (r: Vec<Header>)
    ensures
        header_views(r@) == kept_headers(header_views(headers@)),
        forall|i: int| 0 <= i < r@.len() ==> !is_connection_name(#[trigger] r@[i].name@),
{
    let mut out: Vec<Header> = Vec::new();
    let mut i: usize = 0;
    while i < headers.len()
        invariant
            i <= headers@.len(),
            header_views(out@) == kept_headers(header_views(headers@.take(i as int))),
        decreases headers@.len() - i,
    {
        let h = &headers[i];
        let ghost prev = header_views(out@);
        let ghost hs = header_views(headers@.take(i as int + 1));
        proof {
            assert(hs.drop_last() =~= header_views(headers@.take(i as int)));
            assert(hs.last() == h@);
        }
        if !is_connection_header(&h.name) {
            let name = copy_bytes(&h.name);
            let value = copy_bytes(&h.value);
            out.push(Header { name, value });
            proof {
                assert(header_views(out@) =~= prev.push(h@));
            }
        }
        i = i + 1;
    }
    proof {
        assert(headers@.take(headers@.len() as int) =~= headers@);
        lemma_kept_headers_clean(header_views(headers@));
        assert forall|i: int| 0 <= i < out@.len() implies !is_connection_name(
            #[trigger] out@[i].name@,
        ) by {
            assert(header_views(out@)[i] == out@[i]@);
            assert(!is_connection_name(kept_headers(header_views(headers@))[i].0));
        }
    }
    out
}

/// Why a request was not answered with the origin's reply.
#[derive(Clone, Copy, Debug, PartialEq, Eq)]
pub enum ProxyError {
    /// The request names no target URL.
    BadRequest,
    /// The origin could not be reached or sent no well-formed response.
    UpstreamFetch,
    /// The origin's body could not be read to its end.
    BodyDrain,
}

impl ProxyError {
    /// The status code that the caller sees.
    pub open spec fn spec_status(self) -> u16 {
        match self {
            ProxyError::BadRequest => 400,
            _ => 500,
        }
    }

    /// The status code that the caller sees.
    pub fn status(&self) -> (r: u16)
        ensures
            r == self.spec_status(),
    {
        match self {
            ProxyError::BadRequest => 400,
            _ => 500,
        }
    }
}

/// What the handler of a request does first.
pub enum Decision {
    /// Reply at once with this error; nothing is read from the store or fetched.
    Reject(ProxyError),
    /// Reply 200 with these stored bytes; nothing is fetched.
    Cached(Vec<u8>),
    /// Fetch from the origin at this URL.
    Fetch(String),
}

/// The store of response bodies that the handler shares between requests.
pub type BodyCache = Cache<HashedRequest, Vec<u8>>;

/// The first step of a request with key `key` and target URL `url`, at `now`: reject
/// it if it names no target, serve a fresh stored body, or fetch.
pub fn decide_at(cache: &BodyCache, key: &HashedRequest, url: Option<String>, now: u128) -> (r:
    Decision)
    requires
        cache.wf(),
    ensures
        match url {
            None => r == Decision::Reject(ProxyError::BadRequest),
            Some(u) => match fresh_lookup(cache@, cache.ttl(), key@, now) {
                Some(b) => r matches Decision::Cached(c) && c@ == b@,
                None => r == Decision::Fetch(u),
            },
        },
{
    match url {
        None => Decision::Reject(ProxyError::BadRequest),
        Some(u) => match cache.get_at(key, now) {
            Some(b) => Decision::Cached(copy_bytes(b)),
            None => Decision::Fetch(u),
        },
    }
}

/// The first step of a request, by the wall clock: as `decide_at` at some instant.
pub fn decide(cache: &BodyCache, key: &HashedRequest, url: Option<String>) -> (r: Decision)
    requires
        cache.wf(),
    ensures
        url is None ==> r == Decision::Reject(ProxyError::BadRequest),
        url is Some ==> exists|t: u128|
            match #[trigger] fresh_lookup(cache@, cache.ttl(), key@, t) {
                Some(b) => r matches Decision::Cached(c) && c@ == b@,
                None => r == Decision::Fetch(url.unwrap()),
            },
{
    let now = now_nanos();
    decide_at(cache, key, url, now)
}

/// What the origin sent: its status, its headers and its whole body.
pub struct OriginResponse {
    pub status: u16,
    pub headers: Vec<Header>,
    pub body: Vec<u8>,
}

/// What the caller is sent: a status, headers, and a body to be sent in chunks.
pub struct Reply {
    pub status: u16,
    pub headers: Vec<Header>,
    pub body: Vec<u8>,
}

impl Reply {
    /// The reply for a body served from the store: status 200, no headers.
    pub fn from_cached(body: Vec<u8>) -> (r: Reply)
        ensures
            r.status == 200,
            r.headers@.len() == 0,
            r.body@ == body@,
    {
        Reply { status: 200, headers: Vec::new(), body }
    }
}

/// The last step of a fetch for key `key`, at `now`. On a response, its body is stored
/// under `key`, replacing any entry, and the caller gets its status, its headers but
/// `connection`, and its body. On an error nothing is stored and the error is passed on.
pub fn finish_at(
    cache: &mut BodyCache,
    key: HashedRequest,
    origin: Result<OriginResponse, ProxyError>,
    now: u128,
) -> (r: Result<Reply, ProxyError>)
    requires
        old(cache).wf(),
    ensures
        final(cache).wf(),
        final(cache).ttl() == old(cache).ttl(),
        match origin {
            Err(e) => r == Err::<Reply, ProxyError>(e) && final(cache)@ == old(cache)@,
            Ok(o) => r matches Ok(rep) && rep.status == o.status && rep.body@ == o.body@
                && header_views(rep.headers@) == kept_headers(header_views(o.headers@))
                && (forall|i: int|
                0 <= i < rep.headers@.len() ==> !is_connection_name(#[trigger] rep.headers@[i].name@))
                && final(cache)@ == old(cache)@.insert(key@, (final(cache)@[key@].0, now))
                && final(cache)@[key@].0@ == o.body@,
        },
{
    match origin {
        Err(e) => Err(e),
        Ok(o) => {
            let stored = copy_bytes(&o.body);
            let ghost k = key@;
            let ghost sv = stored;
            cache.set_at(key, stored, now);
            assert(cache@[k] == (sv, now));
            let headers = strip_connection(&o.headers);
            Ok(Reply { status: o.status, headers, body: o.body })
        },
    }
}

/// Once a fetched body has been stored under `key` at `t`, as `finish_at` leaves the
/// store, a request with an equal key at `t2`, no more than the freshness window later,
/// finds those very bytes in the store: `decide_at` serves them and fetches nothing.
pub proof fn lemma_miss_then_hit(
    before: BodyCache,
    after: BodyCache,
    key: HashedRequest,
    again: HashedRequest,
    body: Seq<u8>,
    t: u128,
    t2: u128,
)
    requires
        after.ttl() == before.ttl(),
        after@ == before@.insert(key@, (after@[key@].0, t)),
        after@[key@].0@ == body,
        again@ == key@,
        t <= t2,
        elapsed_secs(t, t2) <= after.ttl(),
    ensures
        fresh_lookup(after@, after.ttl(), again@, t2) matches Some(b) && b@ == body,
{
    assert(after@.contains_key(key@));
}

/// The last step of a fetch, by the wall clock: as `finish_at` at some instant.
pub fn finish(cache: &mut BodyCache, key: HashedRequest, origin: Result<OriginResponse, ProxyError>) -> (r:
    Result<Reply, ProxyError>)
    requires
        old(cache).wf(),
    ensures
        final(cache).wf(),
        final(cache).ttl() == old(cache).ttl(),
        match origin {
            Err(e) => r == Err::<Reply, ProxyError>(e) && final(cache)@ == old(cache)@,
            Ok(o) => r matches Ok(rep) && rep.status == o.status && rep.body@ == o.body@
                && header_views(rep.headers@) == kept_headers(header_views(o.headers@))
                && (forall|i: int|
                0 <= i < rep.headers@.len() ==> !is_connection_name(#[trigger] rep.headers@[i].name@))
                && exists|t: u128|
                final(cache)@ == #[trigger] old(cache)@.insert(key@, (final(cache)@[key@].0, t))
                && final(cache)@[key@].0@ == o.body@,
        },
{
    let now = now_nanos();
    finish_at(cache, key, origin, now)
}

} // verus!
