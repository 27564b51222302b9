//! The MaxMind backend: the outcome of one database lookup, translated
//! to the internal continent enumeration through the fixed geoname
//! table.
//!
//! The binary database reader itself stays outside the library: its
//! decoder indexes the buffer unchecked, so a corrupt database can
//! abort it, and no contract over opaque bytes can exclude those
//! inputs. The caller performs the lookup, catches any abort, and
//! hands the outcome in; everything the outcome decides is verified
//! here, for every outcome.

use crate::continent::Continent;
use crate::geo::GeoError;
use vstd::prelude::*;

verus! {

/// What one database lookup produced: a continent geoname identifier,
/// a row without one, or a reader failure (address not found, corrupt
/// data, or an aborted decode).
#[derive(Debug, Clone, Copy, PartialEq, Eq, Structural)]
pub enum MaxMindOutcome {
    Failed,
    NoContinent,
    Geoname(u32),
}

/// The fixed geoname table: the seven real continents by their geoname
/// identifiers; anything else is unknown.
pub open spec fn spec_geoname_continent(id: u32) -> Result<Continent, GeoError> {
    if id == 6255146 {
        Ok(Continent::Africa)
    } else if id == 6255147 {
        Ok(Continent::Asia)
    } else if id == 6255148 {
        Ok(Continent::Europe)
    } else if id == 6255149 {
        Ok(Continent::NorthAmerica)
    } else if id == 6255151 {
        Ok(Continent::Oceania)
    } else if id == 6255150 {
        Ok(Continent::SouthAmerica)
    } else if id == 6255152 {
        Ok(Continent::Antarctica)
    } else {
        Err(GeoError::ContinentUnknown)
    }
}

/// What a whole lookup outcome means: a reader failure is its own
/// error, a row without a continent is unknown, and an identifier goes
/// through the fixed table.
pub open spec fn spec_maxmind_continent(outcome: MaxMindOutcome) -> Result<Continent, GeoError> {
    match outcome {
        MaxMindOutcome::Failed => Err(GeoError::MaxMindDb),
        MaxMindOutcome::NoContinent => Err(GeoError::ContinentUnknown),
        MaxMindOutcome::Geoname(id) => spec_geoname_continent(id),
    }
}

/// Map a continent geoname identifier through the fixed table.
pub fn geoname_to_continent(geoname_id: u32) -> (r: Result<Continent, GeoError>)
    ensures
        r == spec_geoname_continent(geoname_id),
{
    if geoname_id == 6255146 {
        Ok(Continent::Africa)
    } else if geoname_id == 6255147 {
        Ok(Continent::Asia)
    } else if geoname_id == 6255148 {
        Ok(Continent::Europe)
    } else if geoname_id == 6255149 {
        Ok(Continent::NorthAmerica)
    } else if geoname_id == 6255151 {
        Ok(Continent::Oceania)
    } else if geoname_id == 6255150 {
        Ok(Continent::SouthAmerica)
    } else if geoname_id == 6255152 {
        Ok(Continent::Antarctica)
    } else {
        Err(GeoError::ContinentUnknown)
    }
}

/// Map one lookup outcome to the continent answer.
pub fn maxmind_continent(outcome: &MaxMindOutcome) -> (r: Result<Continent, GeoError>)
    ensures
        r == spec_maxmind_continent(*outcome),
{
    match outcome {
        MaxMindOutcome::Failed => Err(GeoError::MaxMindDb),
        MaxMindOutcome::NoContinent => Err(GeoError::ContinentUnknown),
        MaxMindOutcome::Geoname(id) => geoname_to_continent(*id),
    }
}

/// The marker for a MaxMind-backed deployment: the reader lives with
/// the caller, and each request's lookup outcome is handed in.
pub struct MaxMindDbGeo;

} // verus!
