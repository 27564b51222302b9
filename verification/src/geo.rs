//! The geo facade: a closed variant over the MaxMind and ripe-geo
//! providers, with one lookup method over both.

use crate::continent::Continent;
use crate::ip::IpAddress;
use crate::max_mind_db::{maxmind_continent, spec_maxmind_continent, MaxMindDbGeo, MaxMindOutcome};
use crate::ripe_geo::{ripe_lookup, RipeGeo, RipeGeoDataError};
use vstd::prelude::*;

verus! {

/// Why a GeoIP lookup or a provider build failed.
#[derive(Debug, PartialEq, Eq)]
pub enum GeoError {
    /// The continent is not recognised: the address is outside every
    /// stored interval, or the database row carries no known continent.
    ContinentUnknown,
    /// The MaxMind reader failed to answer the lookup.
    MaxMindDb,
    /// The ripe-geo data could not be built.
    RipeGeo(RipeGeoDataError),
    /// No ripe-geo data source is available: no path was configured and
    /// no other source is compiled in or enabled.
    RipeGeoConfigNoPath,
}

/// The provider in use: a closed variant, dispatched by value.
pub enum Geo {
    MaxMindDb(MaxMindDbGeo),
    RipeGeo(RipeGeo),
}

impl Geo {
    /// Both providers answer lookups from well-formed data.
    pub open spec fn wf(self) -> bool {
        match self {
            Geo::MaxMindDb(_) => true,
            Geo::RipeGeo(rg) => rg.wf(),
        }
    }

    /// Look up the continent of an address.
    ///
    /// For the ripe-geo provider the result is the interval lookup in
    /// one well-formed map pair — the one the reader lock handed out,
    /// never a mixture of two. For the MaxMind provider the result is
    /// exactly what the handed-in lookup outcome means through the
    /// fixed geoname table.
    pub fn try_lookup_continent(&self, address: IpAddress, maxmind: &MaxMindOutcome) -> (r:
        Result<Continent, GeoError>)
        requires
            self.wf(),
        ensures
            self matches Geo::RipeGeo(_) ==> exists|g: crate::ripe_geo::RipeGeoImpl|
                #![auto]
                g.wf() && r == ripe_lookup(g, address),
            self matches Geo::MaxMindDb(_) ==> r == spec_maxmind_continent(*maxmind),
    {
        match self {
            Geo::MaxMindDb(_) => maxmind_continent(maxmind),
            Geo::RipeGeo(rg) => rg.try_lookup_continent(address),
        }
    }
}

} // verus!
