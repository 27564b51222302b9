//! The mirror pool and the continent routing table.
//!
//! A mirror is an upstream URI, a health-check URI and a single atomic
//! availability flag; probers store to the flag and request handlers
//! load from it without any lock. The continent map routes each
//! continent to an ordered list of mirror indices, with the `default`
//! bucket as the required fallback.

use crate::continent::{trim_of, Continent};
use crate::uri::{spec_uri_parts, UriParts};
use std::sync::atomic::{AtomicBool, Ordering};
use vstd::prelude::*;

verus! {

/// A named upstream with its health-check URI and live flag. The flag
/// is the one coordination point between its prober and the request
/// handlers; it starts out unavailable.
#[derive(Debug)]
pub struct Mirror {
    pub upstream: UriParts,
    pub healthcheck: String,
    available: AvailabilityFlag,
}

/// The single atomic availability flag of one mirror, opaque to the
/// verifier: loads return whatever the prober last published.
#[derive(Debug)]
#[verifier::external_body]
pub struct AvailabilityFlag {
    cell: AtomicBool,
}

/// Relies on `AtomicBool::new`.
#[verifier::external_body]
fn flag_new(value: bool) -> AvailabilityFlag {
    AvailabilityFlag { cell: AtomicBool::new(value) }
}

/// Relies on `AtomicBool::load` with acquire ordering: the value is
/// whatever store it observes; nothing more can be promised.
#[verifier::external_body]
fn flag_load(flag: &AvailabilityFlag) -> bool {
    flag.cell.load(Ordering::Acquire)
}

/// Relies on `AtomicBool::store` with release ordering.
#[verifier::external_body]
fn flag_store(flag: &AvailabilityFlag, value: bool) {
    flag.cell.store(value, Ordering::Release);
}

impl Mirror {
    /// The upstream parts: scheme, authority, path.
    pub closed spec fn spec_upstream(self) -> (Seq<char>, Seq<char>, Seq<char>) {
        (self.upstream.scheme@, self.upstream.authority@, self.upstream.path@)
    }

    /// The health-check URI text.
    pub closed spec fn spec_healthcheck(self) -> Seq<char> {
        self.healthcheck@
    }

    /// Build a mirror from its two configured URIs. The upstream must
    /// be an absolute URI; the health-check URI is handed to the prober
    /// as text.
    pub fn from_config(upstream: &str, healthcheck: &str) -> (r: Option<Mirror>)
        ensures
            match r {
                Some(m) => spec_uri_parts(upstream@) == Some(m.spec_upstream())
                    && m.spec_healthcheck() == healthcheck@,
                None => spec_uri_parts(upstream@) is None,
            },
    {
        let parts = match crate::uri::parse_uri(upstream) {
            Some(p) => p,
            None => {
                return None;
            },
        };
        Some(
            Mirror {
                upstream: parts,
                healthcheck: healthcheck.to_owned(),
                available: flag_new(false),
            },
        )
    }

    /// The upstream URI parts.
    pub fn upstream(&self) -> (r: &UriParts)
        ensures
            (r.scheme@, r.authority@, r.path@) == self.spec_upstream(),
    {
        &self.upstream
    }

    /// The health-check URI text.
    pub fn healthcheck_text(&self) -> (r: &String)
        ensures
            r@ == self.spec_healthcheck(),
    {
        &self.healthcheck
    }

    /// Read the live flag. The value is whatever the prober last
    /// published; nothing can be promised of it.
    pub fn is_available(&self) -> bool {
        flag_load(&self.available)
    }

    /// Publish a probe outcome to the live flag.
    pub fn set_available(&self, value: bool) {
        flag_store(&self.available, value);
    }
}

/// Why the mirror and continent tables were rejected.
#[derive(Debug, PartialEq, Eq)]
pub enum ContinentMapConfigError {
    /// The continents table lacks the required `default` key.
    NoDefaultContinent,
    /// A continent's list names a mirror the mirrors table lacks.
    MirrorUnknown { continent: Continent, mirror: String },
    /// A continents key does not spell a continent.
    ContinentUnknown(String),
    /// The mirrors table is empty.
    NoMirrors,
}

/// The index of the first name equal to `key`, or minus one.
pub open spec fn find_name(names: Seq<Seq<char>>, key: Seq<char>) -> int
    decreases names.len(),
{
    if names.len() == 0 {
        -1
    } else if names[0] == key {
        0
    } else if find_name(names.drop_first(), key) == -1 {
        -1
    } else {
        find_name(names.drop_first(), key) + 1
    }
}

pub proof fn lemma_find_name_unique(names: Seq<Seq<char>>, key: Seq<char>, p: int)
    requires
        0 <= p < names.len(),
        names[p] == key,
        forall|i: int| 0 <= i < p ==> names[i] != key,
    ensures
        find_name(names, key) == p,
    decreases names.len(),
{
    if p > 0 {
        assert(names.drop_first()[p - 1] == names[p]);
        assert forall|i: int| 0 <= i < p - 1 implies names.drop_first()[i] != key by {
            assert(names.drop_first()[i] == names[i + 1]);
        }
        lemma_find_name_unique(names.drop_first(), key, p - 1);
    }
}

pub proof fn lemma_find_name_absent(names: Seq<Seq<char>>, key: Seq<char>)
    requires
        forall|i: int| 0 <= i < names.len() ==> names[i] != key,
    ensures
        find_name(names, key) == -1,
    decreases names.len(),
{
    if names.len() > 0 {
        assert forall|i: int| 0 <= i < names.drop_first().len() implies names.drop_first()[i]
            != key by {
            assert(names.drop_first()[i] == names[i + 1]);
        }
        lemma_find_name_absent(names.drop_first(), key);
    }
}

/// Find the first entry with the given name in an association list.
#[verifier::loop_isolation(false)]
fn find_name_exec(names: &Vec<String>, key: &str) -> (r: Option<usize>)
    ensures
        match r {
            Some(p) => find_name(names.deep_view(), key@) == p && p < names@.len(),
            None => find_name(names.deep_view(), key@) == -1,
        },
{
    let ghost dv = names.deep_view();
    proof {
        assert forall|k: int| 0 <= k < dv.len() implies dv[k] == names@[k]@ by {
            assert(dv[k] =~= names@[k]@);
        }
    }
    let n = names.len();
    let mut p: usize = 0;
    while p < n
        invariant
            0 <= p <= n,
            n == dv.len(),
            names@.len() == n,
            forall|k: int| 0 <= k < dv.len() ==> dv[k] == names@[k]@,
            forall|i: int| 0 <= i < p ==> dv[i] != key@,
        decreases n - p,
    {
        if crate::continent::str_eq_exec(names[p].as_str(), key) {
            proof {
                lemma_find_name_unique(dv, key@, p as int);
            }
            return Some(p);
        }
        p += 1;
    }
    proof {
        lemma_find_name_absent(dv, key@);
    }
    None
}

/// The routing table: every configured mirror once, and per continent
/// an ordered list of indices into that pool. Lists may repeat an
/// index; order is priority.
#[derive(Debug)]
pub struct ContinentMap {
    mirrors: Vec<Mirror>,
    lists: Vec<(Continent, Vec<usize>)>,
}

/// The indices of one list as unbounded integers.
pub open spec fn idx_seq(v: Seq<usize>) -> Seq<int> {
    v.map_values(|i: usize| i as int)
}

/// The first list for a continent, if any.
pub open spec fn find_list(lists: Seq<(Continent, Seq<int>)>, c: Continent) -> Option<Seq<int>>
    decreases lists.len(),
{
    if lists.len() == 0 {
        None
    } else if lists[0].0 == c {
        Some(lists[0].1)
    } else {
        find_list(lists.drop_first(), c)
    }
}

impl ContinentMap {
    /// The mirror pool, in configuration order.
    pub closed spec fn spec_mirrors(self) -> Seq<Mirror> {
        self.mirrors@
    }

    /// The routing lists: continent to mirror indices.
    pub closed spec fn spec_lists(self) -> Seq<(Continent, Seq<int>)> {
        lists_view(self.lists@)
    }

    /// The invariant: a `default` list exists, the pool is not empty,
    /// and every listed index points into the pool.
    pub open spec fn wf(self) -> bool {
        &&& find_list(self.spec_lists(), Continent::Default) is Some
        &&& self.spec_mirrors().len() > 0
        &&& forall|i: int, j: int|
            0 <= i < self.spec_lists().len() && 0 <= j < self.spec_lists()[i].1.len() ==> 0 <= (
            #[trigger] self.spec_lists()[i].1[j]) < self.spec_mirrors().len()
    }

    /// The effective list of a continent: its own list, or the
    /// `default` list when it has none.
    pub open spec fn spec_list_for(self, c: Continent) -> Seq<int> {
        match find_list(self.spec_lists(), c) {
            Some(l) => l,
            None => find_list(self.spec_lists(), Continent::Default)->0,
        }
    }

    /// The mirror list for a continent, falling back to `default`.
    #[verifier::loop_isolation(false)]
    pub fn get(&self, continent: Continent) -> (r: &Vec<usize>)
        requires
            self.wf(),
        ensures
            idx_seq(r@) == self.spec_list_for(continent),
            forall|j: int| 0 <= j < r@.len() ==> (#[trigger] r@[j]) < self.spec_mirrors().len(),
    {
        let n = self.lists.len();
        let mut p: usize = 0;
        while p < n
            invariant
                0 <= p <= n,
                self.wf(),
                n == self.lists@.len(),
                forall|i: int| 0 <= i < p ==> (#[trigger] self.spec_lists()[i]).0 != continent,
            decreases n - p,
        {
            if continent_eq(self.lists[p].0, continent) {
                proof {
                    lemma_find_list_at(self.spec_lists(), continent, p as int);
                    assert(idx_seq(self.lists@[p as int].1@) == self.spec_lists()[p as int].1);
                    assert forall|j: int| 0 <= j < self.lists@[p as int].1@.len() implies (
                    #[trigger] self.lists@[p as int].1@[j]) < self.spec_mirrors().len() by {
                        assert(self.spec_lists()[p as int].1[j] < self.spec_mirrors().len());
                        assert(idx_seq(self.lists@[p as int].1@)[j] == self.lists@[p as int].1@[j]
                            as int);
                    }
                }
                return &self.lists[p].1;
            }
            p += 1;
        }
        proof {
            lemma_find_list_none(self.spec_lists(), continent);
        }
        self.get_default()
    }

    /// The `default` mirror list.
    #[verifier::loop_isolation(false)]
    pub fn get_default(&self) -> (r: &Vec<usize>)
        requires
            self.wf(),
        ensures
            Some(idx_seq(r@)) == find_list(self.spec_lists(), Continent::Default),
            forall|j: int| 0 <= j < r@.len() ==> (#[trigger] r@[j]) < self.spec_mirrors().len(),
    {
        let n = self.lists.len();
        let mut p: usize = 0;
        while p < n
            invariant
                0 <= p <= n,
                self.wf(),
                n == self.lists@.len(),
                forall|i: int|
                    0 <= i < p ==> (#[trigger] self.spec_lists()[i]).0 != Continent::Default,
            decreases n - p,
        {
            if continent_eq(self.lists[p].0, Continent::Default) {
                proof {
                    lemma_find_list_at(self.spec_lists(), Continent::Default, p as int);
                    assert(idx_seq(self.lists@[p as int].1@) == self.spec_lists()[p as int].1);
                    assert forall|j: int| 0 <= j < self.lists@[p as int].1@.len() implies (
                    #[trigger] self.lists@[p as int].1@[j]) < self.spec_mirrors().len() by {
                        assert(self.spec_lists()[p as int].1[j] < self.spec_mirrors().len());
                        assert(idx_seq(self.lists@[p as int].1@)[j] == self.lists@[p as int].1@[j]
                            as int);
                    }
                }
                return &self.lists[p].1;
            }
            p += 1;
        }
        proof {
            lemma_find_list_none(self.spec_lists(), Continent::Default);
            assert(false);
        }
        // Unreachable: the invariant guarantees a default list.
        &self.lists[0].1
    }

    /// Every configured mirror, once, for the health checker.
    pub fn all_mirrors(&self) -> (r: &Vec<Mirror>)
        ensures
            r@ == self.spec_mirrors(),
    {
        &self.mirrors
    }

    /// How many mirrors are configured.
    pub fn mirrors_len(&self) -> (r: usize)
        ensures
            r == self.spec_mirrors().len(),
    {
        self.mirrors.len()
    }

    /// One mirror of the pool.
    pub fn mirror(&self, index: usize) -> (r: &Mirror)
        requires
            index < self.spec_mirrors().len(),
        ensures
            *r == self.spec_mirrors()[index as int],
    {
        &self.mirrors[index]
    }

    /// The current availability flags of the whole pool, as one
    /// snapshot of atomic loads. The values are whatever the probers
    /// last published; only the length is determined.
    pub fn availability_snapshot(&self) -> (r: Vec<bool>)
        ensures
            r@.len() == self.spec_mirrors().len(),
    {
        let mut out: Vec<bool> = Vec::new();
        let mut i: usize = 0;
        let n = self.mirrors.len();
        while i < n
            invariant
                0 <= i <= n,
                n == self.spec_mirrors().len(),
                self.mirrors@.len() == n,
                out@.len() == i,
            decreases n - i,
        {
            out.push(self.mirrors[i].is_available());
            i += 1;
        }
        out
    }
}

/// Compare two continents.
pub fn continent_eq(a: Continent, b: Continent) -> (r: bool)
    ensures
        r == (a == b),
{
    a == b
}

proof fn lemma_find_list_at(lists: Seq<(Continent, Seq<int>)>, c: Continent, p: int)
    requires
        0 <= p < lists.len(),
        lists[p].0 == c,
        forall|i: int| 0 <= i < p ==> (#[trigger] lists[i]).0 != c,
    ensures
        find_list(lists, c) == Some(lists[p].1),
    decreases lists.len(),
{
    if p > 0 {
        assert(lists.drop_first()[p - 1] == lists[p]);
        assert forall|i: int| 0 <= i < p - 1 implies (#[trigger] lists.drop_first()[i]).0 != c by {
            assert(lists.drop_first()[i] == lists[i + 1]);
        }
        lemma_find_list_at(lists.drop_first(), c, p - 1);
    }
}

proof fn lemma_find_list_none(lists: Seq<(Continent, Seq<int>)>, c: Continent)
    requires
        forall|i: int| 0 <= i < lists.len() ==> (#[trigger] lists[i]).0 != c,
    ensures
        find_list(lists, c) is None,
    decreases lists.len(),
{
    if lists.len() > 0 {
        assert forall|i: int| 0 <= i < lists.drop_first().len() implies (
        #[trigger] lists.drop_first()[i]).0 != c by {
            assert(lists.drop_first()[i] == lists[i + 1]);
        }
        lemma_find_list_none(lists.drop_first(), c);
    }
}

/// The configured continent tables in the mathematical model.
pub open spec fn conts_view(c: Seq<(String, Vec<String>)>) -> Seq<(Seq<char>, Seq<Seq<char>>)> {
    Seq::new(c.len(), |i: int| (c[i].0@, c[i].1.deep_view()))
}

/// The mirror names of the mirrors table, in order.
pub open spec fn mirror_names_view(m: Seq<(String, Mirror)>) -> Seq<Seq<char>> {
    Seq::new(m.len(), |i: int| m[i].0@)
}

/// The list views of the built routing table.
pub open spec fn lists_view(v: Seq<(Continent, Vec<usize>)>) -> Seq<(Continent, Seq<int>)> {
    Seq::new(v.len(), |i: int| (v[i].0, idx_seq(v[i].1@)))
}

/// Resolve one continent's mirror names against the pool names: the
/// index of each, or the position of the first unknown name.
pub open spec fn spec_resolve_names(mirror_names: Seq<Seq<char>>, names: Seq<Seq<char>>) -> Result<
    Seq<int>,
    int,
>
    decreases names.len(),
{
    if names.len() == 0 {
        Ok(Seq::empty())
    } else {
        let p = find_name(mirror_names, names[0]);
        if p == -1 {
            Err(0)
        } else {
            match spec_resolve_names(mirror_names, names.drop_first()) {
                Ok(r) => Ok(seq![p] + r),
                Err(j) => Err(j + 1),
            }
        }
    }
}

/// Build every continent's list: parse the key, resolve the names. An
/// error names the failing entry and, for an unknown mirror, the
/// position of its name.
pub open spec fn spec_build_lists(
    mirror_names: Seq<Seq<char>>,
    continents: Seq<(Seq<char>, Seq<Seq<char>>)>,
) -> Result<Seq<(Continent, Seq<int>)>, (int, Option<int>)>
    decreases continents.len(),
{
    if continents.len() == 0 {
        Ok(Seq::empty())
    } else {
        match Continent::parses_to(trim_of(continents[0].0)) {
            None => Err((0, None)),
            Some(c) => match spec_resolve_names(mirror_names, continents[0].1) {
                Err(j) => Err((0, Some(j))),
                Ok(idxs) => match spec_build_lists(mirror_names, continents.drop_first()) {
                    Ok(rest) => Ok(seq![(c, idxs)] + rest),
                    Err(e) => Err((e.0 + 1, e.1)),
                },
            },
        }
    }
}

/// The literal key `default` parses to the `Default` bucket.
pub proof fn lemma_default_parses()
    ensures
        trim_of("default"@) == "default"@,
        Continent::parses_to("default"@) == Some(Continent::Default),
{
    reveal_strlit("default");
    reveal_strlit("Africa");
    reveal_strlit("africa");
    reveal_strlit("Asia");
    reveal_strlit("asia");
    reveal_strlit("Europe");
    reveal_strlit("europe");
    reveal_strlit("NorthAmerica");
    reveal_strlit("north-america");
    reveal_strlit("Oceania");
    reveal_strlit("oceania");
    reveal_strlit("SouthAmerica");
    reveal_strlit("south-america");
    reveal_strlit("Antarctica");
    reveal_strlit("antarctica");
    assert("default"@[0] == 'd');
    assert("default"@.len() == 7);
    assert(trim_of("default"@) =~= "default"@);
    assert("default"@ != "Oceania"@) by {
        assert("Oceania"@[0] == 'O');
    }
    assert("default"@ != "oceania"@) by {
        assert("oceania"@[0] == 'o');
    }
}

/// Some entry carries the continent, so the search finds a list.
proof fn lemma_find_list_exists(lists: Seq<(Continent, Seq<int>)>, c: Continent, k: int)
    requires
        0 <= k < lists.len(),
        lists[k].0 == c,
    ensures
        find_list(lists, c) is Some,
    decreases lists.len(),
{
    if lists[0].0 != c {
        assert(lists.drop_first()[k - 1] == lists[k]);
        lemma_find_list_exists(lists.drop_first(), c, k - 1);
    }
}

impl ContinentMap {
    /// Build the routing table from the configured mirror and continent
    /// tables. The continents must hold the `default` key, the mirrors
    /// table must not be empty, every continent key must parse and
    /// every referenced mirror must exist.
    #[verifier::rlimit(100)]
    #[verifier::spinoff_prover]
    #[verifier::loop_isolation(false)]
    pub fn from_mirrors_and_continents(
        mirrors: Vec<(String, Mirror)>,
        continents: &Vec<(String, Vec<String>)>,
    ) -> (r: Result<ContinentMap, ContinentMapConfigError>)
        ensures
            ({
                let mn = mirror_names_view(mirrors@);
                let cv = conts_view(continents@);
                match r {
                    Err(ContinentMapConfigError::NoDefaultContinent) => forall|i: int|
                        0 <= i < cv.len() ==> (#[trigger] cv[i]).0 != "default"@,
                    Err(ContinentMapConfigError::NoMirrors) => (exists|i: int|
                        0 <= i < cv.len() && (#[trigger] cv[i]).0 == "default"@) && mirrors@.len()
                        == 0,
                    Err(ContinentMapConfigError::ContinentUnknown(name)) => spec_build_lists(
                        mn,
                        cv,
                    ) matches Err(e) && e.1 is None && name@ == cv[e.0].0,
                    Err(ContinentMapConfigError::MirrorUnknown { continent, mirror }) => spec_build_lists(
                        mn,
                        cv,
                    ) matches Err(e) && e.1 matches Some(j) && mirror@ == cv[e.0].1[j]
                        && Continent::parses_to(trim_of(cv[e.0].0)) == Some(continent),
                    Ok(cm) => spec_build_lists(mn, cv) matches Ok(lists) && cm.spec_lists()
                        == lists && cm.wf() && cm.spec_mirrors().len() == mirrors@.len() && (
                    forall|i: int|
                        0 <= i < mirrors@.len() ==> cm.spec_mirrors()[i] == (
                        #[trigger] mirrors@[i]).1) && (exists|i: int|
                        0 <= i < cv.len() && (#[trigger] cv[i]).0 == "default"@) && mirrors@.len()
                        > 0,
                }
            }),
    {
        let ghost mn = mirror_names_view(mirrors@);
        let ghost cv = conts_view(continents@);
        // The continents table must hold the `default` key.
        let cn = continents.len();
        let mut d: usize = 0;
        let ghost mut default_at: int = 0;
        let mut has_default = false;
        while d < cn
            invariant
                0 <= d <= cn,
                cn == cv.len(),
                continents@.len() == cn,
                has_default ==> 0 <= default_at < cn && cv[default_at].0 == "default"@,
                !has_default ==> forall|i: int| 0 <= i < d ==> (#[trigger] cv[i]).0 != "default"@,
            decreases cn - d,
        {
            if !has_default && crate::continent::str_eq_exec(continents[d].0.as_str(), "default") {
                has_default = true;
                proof {
                    default_at = d as int;
                }
            }
            d += 1;
        }
        if !has_default {
            return Err(ContinentMapConfigError::NoDefaultContinent);
        }
        if mirrors.len() == 0 {
            return Err(ContinentMapConfigError::NoMirrors);
        }
        // The pool names, for resolving list entries.
        let mut mirror_names: Vec<String> = Vec::new();
        let mut mi: usize = 0;
        while mi < mirrors.len()
            invariant
                0 <= mi <= mirrors@.len(),
                mirror_names@.len() == mi,
                forall|i: int| 0 <= i < mi ==> (#[trigger] mirror_names@[i])@ == mirrors@[i].0@,
            decreases mirrors@.len() - mi,
        {
            mirror_names.push(mirrors[mi].0.clone());
            mi += 1;
        }
        proof {
            assert(mirror_names.deep_view() =~~= mn);
        }
        // Build each continent's list.
        let mut lists: Vec<(Continent, Vec<usize>)> = Vec::new();
        let mut e: usize = 0;
        proof {
            assert(cv.skip(0) =~= cv);
        }
        while e < cn
            invariant
                0 <= e <= cn,
                cn == cv.len(),
                continents@.len() == cn,
                mirror_names.deep_view() == mn,
                mirror_names@.len() == mirrors@.len(),
                lists@.len() == e,
                mn.len() == mirrors@.len(),
                forall|k: int, j: int|
                    0 <= k < lists@.len() && 0 <= j < lists@[k].1@.len() ==> (
                    #[trigger] lists@[k].1@[j]) < mirrors@.len(),
                forall|k: int|
                    0 <= k < lists@.len() ==> (#[trigger] lists_view(lists@)[k]).0
                        == Continent::parses_to(trim_of(cv[k].0))->0,
                ({
                    match spec_build_lists(mn, cv.skip(e as int)) {
                        Ok(rest) => spec_build_lists(mn, cv) == Ok::<_, (int, Option<int>)>(
                            lists_view(lists@) + rest,
                        ),
                        Err(er) => spec_build_lists(mn, cv) == Err::<
                            Seq<(Continent, Seq<int>)>,
                            _,
                        >((e + er.0, er.1)),
                    }
                }),
            decreases cn - e,
        {
            proof {
                assert(cv.skip(e as int)[0] == cv[e as int]);
                assert(cv.skip(e as int).drop_first() =~= cv.skip(e as int + 1));
            }
            let key: &String = &continents[e].0;
            let c = match Continent::parse(key.as_str()) {
                Some(c) => c,
                None => {
                    return Err(ContinentMapConfigError::ContinentUnknown(key.clone()));
                },
            };
            let names: &Vec<String> = &continents[e].1;
            let ghost nv = continents@[e as int].1.deep_view();
            proof {
                assert(nv == cv[e as int].1);
            }
            let mut idxs: Vec<usize> = Vec::new();
            let mut j: usize = 0;
            proof {
                assert(nv.skip(0) =~= nv);
            }
            while j < names.len()
                invariant
                    0 <= j <= names@.len(),
                    names@.len() == nv.len(),
                    nv == continents@[e as int].1.deep_view(),
                    e < cn,
                    cn == cv.len(),
                    continents@.len() == cn,
                    names == &continents@[e as int].1,
                    mirror_names.deep_view() == mn,
                    mirror_names@.len() == mirrors@.len(),
                    mn.len() == mirrors@.len(),
                    idxs@.len() == j,
                    forall|k: int| 0 <= k < j ==> (#[trigger] idxs@[k]) < mirrors@.len(),
                    ({
                        match spec_resolve_names(mn, nv.skip(j as int)) {
                            Ok(rest) => spec_resolve_names(mn, nv) == Ok::<_, int>(
                                idx_seq(idxs@) + rest,
                            ),
                            Err(jj) => spec_resolve_names(mn, nv) == Err::<Seq<int>, _>(
                                j + jj,
                            ),
                        }
                    }),
                decreases names@.len() - j,
            {
                proof {
                    assert(nv.skip(j as int)[0] == nv[j as int]);
                    assert(nv.skip(j as int).drop_first() =~= nv.skip(j as int + 1));
                    assert(nv[j as int] =~= names@[j as int]@);
                }
                match find_name_exec(&mirror_names, names[j].as_str()) {
                    Some(p) => {
                        proof {
                            assert(find_name(mn, nv.skip(j as int)[0]) == p as int);
                        }
                        let ghost prior = idxs@;
                        idxs.push(p);
                        proof {
                            assert(idx_seq(idxs@) =~= idx_seq(prior) + seq![p as int]);
                            match spec_resolve_names(mn, nv.skip(j as int + 1)) {
                                Ok(rest2) => {
                                    assert(spec_resolve_names(mn, nv.skip(j as int)) == Ok::<
                                        _,
                                        int,
                                    >(seq![p as int] + rest2));
                                    assert(idx_seq(prior) + (seq![p as int] + rest2) =~= idx_seq(
                                        idxs@,
                                    ) + rest2);
                                },
                                Err(jj) => {
                                    assert(spec_resolve_names(mn, nv.skip(j as int)) == Err::<
                                        Seq<int>,
                                        _,
                                    >(jj + 1));
                                },
                            }
                        }
                    },
                    None => {
                        return Err(
                            ContinentMapConfigError::MirrorUnknown {
                                continent: c,
                                mirror: names[j].clone(),
                            },
                        );
                    },
                }
                j += 1;
            }
            proof {
                assert(nv.skip(nv.len() as int) =~= Seq::<Seq<char>>::empty());
                assert(idx_seq(idxs@) + Seq::<int>::empty() =~= idx_seq(idxs@));
            }
            let ghost old_lists = lists@;
            lists.push((c, idxs));
            proof {
                assert(lists_view(lists@) =~= lists_view(old_lists) + seq![
                    (c, idx_seq(lists@[e as int].1@)),
                ]);
                assert(lists_view(old_lists) + seq![(c, idx_seq(lists@[e as int].1@))]
                    + spec_build_lists(mn, cv.skip(e as int + 1))->Ok_0 =~= lists_view(old_lists)
                    + (seq![(c, idx_seq(lists@[e as int].1@))] + spec_build_lists(
                    mn,
                    cv.skip(e as int + 1),
                )->Ok_0));
            }
            e += 1;
        }
        proof {
            assert(cv.skip(cn as int) =~= Seq::<(Seq<char>, Seq<Seq<char>>)>::empty());
            assert(lists_view(lists@) + Seq::<(Continent, Seq<int>)>::empty() =~= lists_view(
                lists@,
            ));
        }
        // Move the mirrors into the pool.
        let mut pool: Vec<Mirror> = Vec::new();
        let mut rest = mirrors;
        while rest.len() > 0
            invariant
                pool@.len() + rest@.len() == mn.len(),
                forall|i: int|
                    0 <= i < rest@.len() ==> #[trigger] rest@[i] == mirrors@[pool@.len() + i],
                forall|i: int| 0 <= i < pool@.len() ==> (#[trigger] pool@[i]) == mirrors@[i].1,
            decreases rest@.len(),
        {
            let (_, m) = rest.remove(0);
            pool.push(m);
        }
        let cm = ContinentMap { mirrors: pool, lists };
        proof {
            lemma_default_parses();
            assert(cm.spec_lists() == lists_view(cm.lists@));
            assert(cm.spec_lists()[default_at].0 == Continent::Default);
            lemma_find_list_exists(cm.spec_lists(), Continent::Default, default_at);
        }
        Ok(cm)
    }
}

} // verus!
