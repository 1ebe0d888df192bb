//! The four persisted record shapes of the administrative hierarchy.
//!
//! Each record carries a surrogate id (assigned at insert time, counting
//! up from one within its level), an externally issued natural key, the
//! display name, the slug derived from that name, and — below the top
//! level — the surrogate id of its parent.

use vstd::prelude::*;

verus! {

/// A top-level region. Its natural key is the region code; the NUTS
/// classification code rides along from the source extract.
#[derive(Debug, Clone)]
pub struct Region {
    pub id: i32,
    pub name: String,
    pub slug: String,
    pub region_code: String,
    pub nuts_code: String,
}

/// A district, owned by a region.
#[derive(Debug, Clone)]
pub struct District {
    pub id: i32,
    pub name: String,
    pub slug: String,
    pub district_code: String,
    pub region_id: i32,
}

/// A sub-district administrative office (ORP), owned by a district.
#[derive(Debug, Clone)]
pub struct Orp {
    pub id: i32,
    pub name: String,
    pub slug: String,
    pub orp_code: String,
    pub district_id: i32,
}

/// A municipality, owned by an administrative office. Besides its own
/// natural key it keeps the sub-office code of the source row.
#[derive(Debug, Clone)]
pub struct Municipality {
    pub id: i32,
    pub name: String,
    pub slug: String,
    pub municipality_code: String,
    pub pou_code: String,
    pub orp_id: i32,
}

} // verus!
