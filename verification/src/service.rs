//! The request handler: extract the client IP, resolve its continent,
//! pick the first available mirror and compose the redirect.

use crate::continent::Continent;
use crate::geo::{Geo, GeoError};
use crate::max_mind_db::{spec_maxmind_continent, MaxMindOutcome};
use crate::header_tools::{client_ip, client_ip_spec, headers_view, names_view};
use crate::ip::{spec_canonical_ip, CanonicalIpAddr, IpAddress};
use crate::mirror::{find_list, ContinentMap, Mirror};
use crate::uri::{compose_uri, compose_uri_spec};
use vstd::prelude::*;

verus! {

/// Why a request could not be redirected.
#[derive(Debug, PartialEq, Eq, Structural)]
pub enum ServiceError {
    /// No mirror of the chosen list read available.
    MirrorsUnavailable,
    /// The request URI has no path and query to forward.
    InvalidUri,
}

/// A composed redirect: the status, the target and the configured
/// response headers.
#[derive(Debug)]
pub struct RedirectResponse {
    pub status: u16,
    pub location: String,
    pub headers: Vec<(String, String)>,
}

/// Header names and values as text pairs.
pub open spec fn pairs_view(h: Seq<(String, String)>) -> Seq<(Seq<char>, Seq<char>)> {
    Seq::new(h.len(), |i: int| (h[i].0@, h[i].1@))
}

/// The position in a mirror list of the first entry whose flag is set,
/// or minus one.
pub open spec fn first_avail(list: Seq<int>, flags: Seq<bool>) -> int
    decreases list.len(),
{
    if list.len() == 0 {
        -1
    } else if flags[list[0]] {
        0
    } else if first_avail(list.drop_first(), flags) == -1 {
        -1
    } else {
        first_avail(list.drop_first(), flags) + 1
    }
}

/// The mirror selected for a continent outcome under a flag snapshot:
/// the first available entry of the continent's effective list, with
/// any lookup failure routed through `default`.
pub open spec fn spec_selected(
    cm: ContinentMap,
    cont: Result<Continent, GeoError>,
    flags: Seq<bool>,
) -> Option<int> {
    let list = match cont {
        Ok(c) => cm.spec_list_for(c),
        Err(_) => find_list(cm.spec_lists(), Continent::Default)->0,
    };
    let p = first_avail(list, flags);
    if p == -1 {
        None
    } else {
        Some(list[p])
    }
}

/// What the geo facade may answer for an address: for ripe-geo, the
/// lookup in one well-formed map pair; for MaxMind, exactly what the
/// handed-in lookup outcome means.
pub open spec fn geo_outcome_ok(
    g: Geo,
    a: IpAddress,
    maxmind: MaxMindOutcome,
    out: Result<Continent, GeoError>,
) -> bool {
    match g {
        Geo::RipeGeo(_) => exists|im: crate::ripe_geo::RipeGeoImpl|
            #![auto]
            im.wf() && out == crate::ripe_geo::ripe_lookup(im, a),
        Geo::MaxMindDb(_) => out == spec_maxmind_continent(maxmind),
    }
}

/// The header-derived client address, or the socket address.
pub open spec fn spec_remote_ip(
    hv: Seq<(Seq<char>, Seq<u8>)>,
    names: Seq<Seq<char>>,
    recursive: bool,
    socket_ip: IpAddress,
) -> IpAddress {
    let raw = match client_ip_spec(hv, names, recursive) {
        Some(a) => a,
        None => socket_ip,
    };
    spec_canonical_ip(raw)
}

proof fn lemma_first_avail_at(list: Seq<int>, flags: Seq<bool>, p: int)
    requires
        0 <= p < list.len(),
        forall|j: int| 0 <= j < list.len() ==> 0 <= #[trigger] list[j] < flags.len(),
        flags[list[p]],
        forall|j: int| 0 <= j < p ==> !flags[#[trigger] list[j]],
    ensures
        first_avail(list, flags) == p,
    decreases list.len(),
{
    if p > 0 {
        assert(list.drop_first()[p - 1] == list[p]);
        assert(forall|j: int| 0 <= j < list.drop_first().len() ==> #[trigger] list.drop_first()[j]
            == list[j + 1]);
        lemma_first_avail_at(list.drop_first(), flags, p - 1);
    }
}

proof fn lemma_first_avail_none(list: Seq<int>, flags: Seq<bool>)
    requires
        forall|j: int| 0 <= j < list.len() ==> 0 <= #[trigger] list[j] < flags.len(),
        forall|j: int| 0 <= j < list.len() ==> !flags[#[trigger] list[j]],
    ensures
        first_avail(list, flags) == -1,
    decreases list.len(),
{
    if list.len() > 0 {
        assert(forall|j: int| 0 <= j < list.drop_first().len() ==> #[trigger] list.drop_first()[j]
            == list[j + 1]);
        lemma_first_avail_none(list.drop_first(), flags);
    }
}

/// Pick the first available mirror of a list under a given flag
/// snapshot: the first listed index whose flag is set, or nothing when
/// none is. This is the first-available selection law, promised for
/// every snapshot; the request handler applies it to the snapshot it
/// read.
#[verifier::loop_isolation(false)]
pub fn pick_first_available(list: &Vec<usize>, flags: &Vec<bool>) -> (r: Option<usize>)
    requires
        forall|j: int| 0 <= j < list@.len() ==> (#[trigger] list@[j]) < flags@.len(),
    ensures
        ({
            let p = first_avail(crate::mirror::idx_seq(list@), flags@);
            match r {
                Some(m) => 0 <= p < list@.len() && m == list@[p] && flags@[m as int] && forall|
                    j: int,
                |
                    0 <= j < p ==> !flags@[#[trigger] list@[j] as int],
                None => p == -1 && forall|j: int|
                    0 <= j < list@.len() ==> !flags@[#[trigger] list@[j] as int],
            }
        }),
{
    let ghost li = crate::mirror::idx_seq(list@);
    proof {
        assert(forall|k: int| 0 <= k < li.len() ==> #[trigger] li[k] == list@[k] as int);
    }
    let n = list.len();
    let mut j: usize = 0;
    while j < n
        invariant
            0 <= j <= n,
            n == li.len(),
            list@.len() == n,
            forall|k: int| 0 <= k < j ==> !flags@[#[trigger] li[k]],
        decreases n - j,
    {
        if flags[list[j]] {
            proof {
                lemma_first_avail_at(li, flags@, j as int);
                assert forall|q: int| 0 <= q < j implies !flags@[
                    #[trigger] list@[q] as int
                ] by {
                    assert(li[q] == list@[q] as int);
                }
            }
            return Some(list[j]);
        }
        j += 1;
    }
    proof {
        lemma_first_avail_none(li, flags@);
        assert forall|q: int| 0 <= q < list@.len() implies !flags@[
            #[trigger] list@[q] as int
        ] by {
            assert(li[q] == list@[q] as int);
        }
    }
    None
}

/// What a handler result means, given the continent outcome and the
/// flag snapshot that were read.
pub open spec fn response_matches(
    r: Result<RedirectResponse, ServiceError>,
    cm: ContinentMap,
    resp_headers: Seq<(Seq<char>, Seq<char>)>,
    cont: Result<Continent, GeoError>,
    flags: Seq<bool>,
    pq: Option<Seq<char>>,
) -> bool {
    match r {
        Err(ServiceError::MirrorsUnavailable) => spec_selected(cm, cont, flags) is None,
        Err(ServiceError::InvalidUri) => spec_selected(cm, cont, flags) is Some && pq is None,
        Ok(resp) => spec_selected(cm, cont, flags) matches Some(mi) && pq matches Some(p)
            && resp.status == 302 && resp.location@ == compose_uri_spec(
            cm.spec_mirrors()[mi].spec_upstream().0,
            cm.spec_mirrors()[mi].spec_upstream().1,
            cm.spec_mirrors()[mi].spec_upstream().2,
            p,
        ) && pairs_view(resp.headers@) == resp_headers,
    }
}

/// The path-and-query of a request, when it has one.
pub open spec fn pq_view(p: Option<&String>) -> Option<Seq<char>> {
    match p {
        Some(s) => Some(s@),
        None => None,
    }
}

/// The whole redirector state for one process: the trusted header
/// names, the response headers, the geo provider and the mirror pool.
pub struct Geo302Service {
    ip_headers: Vec<String>,
    ip_headers_recursive: bool,
    response_headers: Vec<(String, String)>,
    geo: Geo,
    continent_map: ContinentMap,
}

impl Geo302Service {
    pub closed spec fn spec_ip_headers(self) -> Seq<Seq<char>> {
        names_view(self.ip_headers@)
    }

    pub closed spec fn spec_recursive(self) -> bool {
        self.ip_headers_recursive
    }

    pub closed spec fn spec_response_headers(self) -> Seq<(Seq<char>, Seq<char>)> {
        pairs_view(self.response_headers@)
    }

    pub closed spec fn spec_geo(self) -> Geo {
        self.geo
    }

    pub closed spec fn spec_continent_map(self) -> ContinentMap {
        self.continent_map
    }

    /// The provider answers from well-formed data and the routing
    /// table is well-formed.
    pub open spec fn wf(self) -> bool {
        self.spec_geo().wf() && self.spec_continent_map().wf()
    }

    /// Assemble the service from its already validated parts.
    pub fn new(
        ip_headers: Vec<String>,
        ip_headers_recursive: bool,
        response_headers: Vec<(String, String)>,
        geo: Geo,
        continent_map: ContinentMap,
    ) -> (r: Geo302Service)
        requires
            geo.wf(),
            continent_map.wf(),
        ensures
            r.wf(),
            r.spec_ip_headers() == names_view(ip_headers@),
            r.spec_recursive() == ip_headers_recursive,
            r.spec_response_headers() == pairs_view(response_headers@),
            r.spec_geo() == geo,
            r.spec_continent_map() == continent_map,
    {
        Geo302Service { ip_headers, ip_headers_recursive, response_headers, geo, continent_map }
    }

    /// The geo provider, for the autoupdate task.
    pub fn geo(&self) -> (r: &Geo)
        ensures
            *r == self.spec_geo(),
    {
        &self.geo
    }

    /// The routing table, for the health checker's probers.
    pub fn continent_map(&self) -> (r: &ContinentMap)
        ensures
            *r == self.spec_continent_map(),
    {
        &self.continent_map
    }

    /// The client address of one request: the trusted forwarding
    /// headers decide, the socket address is the fallback, and the
    /// result is canonicalized.
    pub fn remote_ip(&self, headers: &Vec<(String, Vec<u8>)>, socket_ip: IpAddress) -> (r:
        IpAddress)
        ensures
            r == spec_remote_ip(
                headers_view(headers@),
                self.spec_ip_headers(),
                self.spec_recursive(),
                socket_ip,
            ),
    {
        let raw = match client_ip(headers, &self.ip_headers, self.ip_headers_recursive) {
            Some(a) => a,
            None => socket_ip,
        };
        raw.to_canonical_ip()
    }

    /// Handle one request: the redirect for its client, or the error
    /// the handler maps to a status.
    ///
    /// The client address is determined by the forwarding headers with
    /// the socket address as fallback, then canonicalized. For a
    /// MaxMind deployment the caller performs the database lookup for
    /// that address and hands the outcome in. The continent outcome
    /// and the availability flags are read from shared state, so the
    /// contract fixes the response as a function of whichever outcome
    /// and flag snapshot were read.
    #[verifier::rlimit(100)]
    #[verifier::spinoff_prover]
    #[verifier::loop_isolation(false)]
    pub fn response(
        &self,
        socket_ip: IpAddress,
        headers: &Vec<(String, Vec<u8>)>,
        path_and_query: Option<&String>,
        maxmind: &MaxMindOutcome,
    ) -> (r: Result<RedirectResponse, ServiceError>)
        requires
            self.wf(),
        ensures
            ({
                let remote = spec_remote_ip(
                    headers_view(headers@),
                    self.spec_ip_headers(),
                    self.spec_recursive(),
                    socket_ip,
                );
                exists|cont: Result<Continent, GeoError>, flags: Seq<bool>|
                    #![auto]
                    flags.len() == self.spec_continent_map().spec_mirrors().len()
                        && geo_outcome_ok(self.spec_geo(), remote, *maxmind, cont)
                        && response_matches(
                        r,
                        self.spec_continent_map(),
                        self.spec_response_headers(),
                        cont,
                        flags,
                        pq_view(path_and_query),
                    )
            }),
    {
        let remote = self.remote_ip(headers, socket_ip);
        let cont = self.geo.try_lookup_continent(remote, maxmind);
        let list: &Vec<usize> = match &cont {
            Ok(c) => self.continent_map.get(*c),
            Err(_) => self.continent_map.get_default(),
        };
        let flags = self.continent_map.availability_snapshot();
        let picked = pick_first_available(list, &flags);
        let ghost cm = self.spec_continent_map();
        let (found, chosen): (bool, usize) = match picked {
            Some(m) => (true, m),
            None => (false, 0),
        };
        let ghost rm = spec_remote_ip(
            headers_view(headers@),
            self.spec_ip_headers(),
            self.spec_recursive(),
            socket_ip,
        );
        proof {
            assert(remote == rm);
            assert(geo_outcome_ok(self.spec_geo(), rm, *maxmind, cont));
        }
        if !found {
            proof {
                assert(response_matches(
                    Err::<RedirectResponse, ServiceError>(ServiceError::MirrorsUnavailable),
                    cm,
                    self.spec_response_headers(),
                    cont,
                    flags@,
                    pq_view(path_and_query),
                ));
            }
            return Err(ServiceError::MirrorsUnavailable);
        }
        let pq: &String = match path_and_query {
            Some(p) => p,
            None => {
                proof {
                    assert(response_matches(
                        Err::<RedirectResponse, ServiceError>(ServiceError::InvalidUri),
                        cm,
                        self.spec_response_headers(),
                        cont,
                        flags@,
                        pq_view(path_and_query),
                    ));
                }
                return Err(ServiceError::InvalidUri);
            },
        };
        let m: &Mirror = self.continent_map.mirror(chosen);
        let location = compose_uri(m.upstream(), pq.as_str());
        let out_headers = clone_pairs(&self.response_headers);
        let resp = RedirectResponse { status: 302, location, headers: out_headers };
        proof {
            assert(response_matches(
                Ok::<RedirectResponse, ServiceError>(resp),
                cm,
                self.spec_response_headers(),
                cont,
                flags@,
                pq_view(path_and_query),
            ));
        }
        Ok(resp)
    }
}

/// Copy the configured response headers for one response.
fn clone_pairs(h: &Vec<(String, String)>) -> (r: Vec<(String, String)>)
    ensures
        pairs_view(r@) == pairs_view(h@),
{
    let mut out: Vec<(String, String)> = Vec::new();
    let mut i: usize = 0;
    while i < h.len()
        invariant
            0 <= i <= h@.len(),
            out@.len() == i,
            forall|k: int|
                0 <= k < i ==> (#[trigger] out@[k]).0@ == h@[k].0@ && out@[k].1@ == h@[k].1@,
        decreases h@.len() - i,
    {
        out.push((h[i].0.clone(), h[i].1.clone()));
        i += 1;
    }
    proof {
        assert(pairs_view(out@) =~= pairs_view(h@));
    }
    out
}

/// The status and diagnostic body of an error response.
pub fn make_error_response(error: &ServiceError) -> (r: (u16, &'static str))
    ensures
        error is MirrorsUnavailable ==> r.0 == 503 && r.1@ == "No available mirrors"@,
        error is InvalidUri ==> r.0 == 400 && r.1@ == "Requested URI is invalid"@,
{
    match error {
        ServiceError::MirrorsUnavailable => (503, "No available mirrors"),
        ServiceError::InvalidUri => (400, "Requested URI is invalid"),
    }
}

} // verus!
