//! The hierarchical import pipeline.
//!
//! A flat extract — one row per municipality, each row carrying the names
//! and natural keys of all four levels — is materialized in four ordered
//! passes: regions, districts, administrative offices, municipalities.
//! Each pass collapses repeated natural keys onto one record (the first
//! row bearing the key wins), derives the record's slug from its display
//! name, resolves the parent's surrogate id through the mapping the
//! previous pass produced, and assigns surrogate ids counting up from one
//! in first-seen order.

use vstd::prelude::*;

use crate::entities::District;
use crate::entities::Municipality;
use crate::entities::Orp;
use crate::entities::Region;
use crate::slug::slug_from_name;
use crate::slug::slug_seq;

verus! {

/// One record of the flat source extract: the display names and natural
/// keys of every level, denormalized onto the single municipality row.
#[derive(Debug, Clone)]
pub struct FlatRow {
    pub municipality_name: String,
    pub municipality_code: String,
    pub pou_code: String,
    pub orp_name: String,
    pub orp_code: String,
    pub district_name: String,
    pub district_code: String,
    pub region_name: String,
    pub region_code: String,
    pub nuts_code: String,
}

/// One level of the hierarchy, used to report where a failure arose.
#[derive(Debug, Clone, Copy, PartialEq, Eq)]
pub enum Level {
    Region,
    District,
    Orp,
    Municipality,
}

/// Why an import run fails. Every failure aborts the whole run; no
/// partial hierarchy is ever handed out.
#[derive(Debug, Clone)]
pub enum ImportError {
    /// The source could not be read or parsed into rows.
    Parse { detail: String },
    /// A child row references a parent natural key that no earlier pass
    /// resolved: the source's referential chain is broken.
    MissingParent { level: Level, parent_code: String },
    /// The persistence collaborator rejected a write.
    Persistence { detail: String },
}

/// One resolved natural key: the key and the surrogate id its record got.
#[derive(Debug, Clone)]
pub struct IdEntry {
    pub code: String,
    pub id: i32,
}

/// The natural-key-to-surrogate-id mapping one pass hands to the next.
/// It is owned by a single import run and discarded afterwards.
#[derive(Debug, Clone)]
pub struct IdTable {
    pub entries: Vec<IdEntry>,
}

impl IdTable {
    /// No natural key is recorded twice.
    pub open spec fn wf(&self) -> bool {
        forall|i: int, j: int|
            0 <= i < j < self.entries@.len() ==> (#[trigger] self.entries@[i]).code@ != (
            #[trigger] self.entries@[j]).code@
    }

    /// The table resolves this natural key.
    pub open spec fn contains_code(&self, code: Seq<char>) -> bool {
        exists|i: int| 0 <= i < self.entries@.len() && (#[trigger] self.entries@[i]).code@ == code
    }

    /// The position at which this natural key is recorded.
    pub open spec fn spec_index_of(&self, code: Seq<char>) -> int {
        choose|i: int| 0 <= i < self.entries@.len() && (#[trigger] self.entries@[i]).code@ == code
    }

    /// The surrogate id this natural key resolves to.
    pub open spec fn spec_id_of(&self, code: Seq<char>) -> i32 {
        self.entries@[self.spec_index_of(code)].id
    }

    /// An empty mapping: no key resolved yet.
    pub fn new() -> (r: IdTable)
        ensures
            r.entries@.len() == 0,
            r.wf(),
    {
        IdTable { entries: Vec::new() }
    }

    /// Records the surrogate id a freshly persisted record got for its
    /// natural key. The key must not have been resolved before.
    pub fn insert(&mut self, code: String, id: i32)
        requires
            !old(self).contains_code(code@),
        ensures
            final(self).entries@ == old(self).entries@.push((IdEntry { code, id })),
            old(self).wf() ==> final(self).wf(),
            final(self).contains_code(code@),
    {
        let ghost prior = self.entries@;
        self.entries.push(IdEntry { code, id });
        proof {
            assert(self.entries@.last().code@ == code@);
            if old(self).wf() {
                assert forall|i: int, j: int|
                    0 <= i < j < self.entries@.len() implies (#[trigger] self.entries@[i]).code@
                    != (#[trigger] self.entries@[j]).code@ by {
                    if j < prior.len() {
                        assert(self.entries@[i] == prior[i] && self.entries@[j] == prior[j]);
                    } else {
                        assert(self.entries@[j].code@ == code@);
                        assert(self.entries@[i] == prior[i]);
                    }
                }
            }
        }
    }

    /// Looks a natural key up: the surrogate id of its record, if the key
    /// has been resolved.
    pub fn id_of(&self, code: &String) -> (r: Option<i32>)
        ensures
            r is Some <==> self.contains_code(code@),
            r matches Some(id) ==> exists|i: int|
                0 <= i < self.entries@.len() && (#[trigger] self.entries@[i]).code@ == code@
                    && self.entries@[i].id == id,
            self.wf() ==> (r matches Some(id) ==> id == self.spec_id_of(code@)),
    {
        let mut i: usize = 0;
        while i < self.entries.len()
            invariant
                i <= self.entries@.len(),
                forall|k: int| 0 <= k < i ==> (#[trigger] self.entries@[k]).code@ != code@,
            decreases self.entries@.len() - i,
        {
            if self.entries[i].code == *code {
                proof {
                    if self.wf() {
                        let w = self.spec_index_of(code@);
                        assert(0 <= w < self.entries@.len() && self.entries@[w].code@ == code@);
                        assert(w == i);
                    }
                }
                return Some(self.entries[i].id);
            }
            i = i + 1;
        }
        None
    }
}

/// The character sequences of a sequence of strings.
pub open spec fn views(cs: Seq<String>) -> Seq<Seq<char>> {
    cs.map_values(|c: String| c@)
}

/// The distinct values of a sequence, each kept at its first occurrence,
/// in first-seen order.
pub open spec fn dedup_first(codes: Seq<Seq<char>>) -> Seq<Seq<char>>
    decreases codes.len(),
{
    if codes.len() == 0 {
        Seq::empty()
    } else {
        let prefix = dedup_first(codes.drop_last());
        if prefix.contains(codes.last()) {
            prefix
        } else {
            prefix.push(codes.last())
        }
    }
}

/// The indices of the first occurrence of each distinct string, in order.
/// This is the shared deduplication step of the region, district and
/// office passes.
#[verifier::rlimit(50)]
pub fn dedup_indices(codes: &Vec<String>) -> (r: Vec<usize>)
    ensures
        r@.len() <= codes@.len(),
        forall|j: int| 0 <= j < r@.len() ==> (#[trigger] r@[j]) < codes@.len(),
        forall|j: int, k: int| 0 <= j < k < r@.len() ==> (#[trigger] r@[j]) < (#[trigger] r@[k]),
        forall|j: int, k: int|
            0 <= j < r@.len() && 0 <= k < r@[j] ==> (#[trigger] codes@[k])@ != codes@[(
            #[trigger] r@[j]) as int]@,
        r@.map_values(|u: usize| codes@[u as int]@) == dedup_first(views(codes@)),
        forall|i: int|
            0 <= i < codes@.len() ==> exists|j: int|
                0 <= j < r@.len() && codes@[(#[trigger] r@[j]) as int]@ == (
                #[trigger] codes@[i])@,
{
    let mut r: Vec<usize> = Vec::new();
    let mut i: usize = 0;
    while i < codes.len()
        invariant
            i <= codes@.len(),
            r@.len() <= i,
            forall|j: int| 0 <= j < r@.len() ==> (#[trigger] r@[j]) < i,
            forall|j: int, k: int|
                0 <= j < k < r@.len() ==> (#[trigger] r@[j]) < (#[trigger] r@[k]),
            forall|j: int, k: int|
                0 <= j < r@.len() && 0 <= k < r@[j] ==> (#[trigger] codes@[k])@ != codes@[(
                #[trigger] r@[j]) as int]@,
            r@.map_values(|u: usize| codes@[u as int]@) == dedup_first(views(codes@.take(i as int))),
            forall|i2: int|
                0 <= i2 < i ==> exists|j: int|
                    0 <= j < r@.len() && codes@[(#[trigger] r@[j]) as int]@ == (
                    #[trigger] codes@[i2])@,
        decreases codes@.len() - i,
    {
        let ghost mapped_prefix = r@.map_values(|u: usize| codes@[u as int]@);
        let ghost prior_r = r@;
        let mut found = false;
        let mut j: usize = 0;
        while j < r.len()
            invariant
                j <= r@.len(),
                i < codes@.len(),
                forall|j2: int| 0 <= j2 < r@.len() ==> (#[trigger] r@[j2]) < i,
                found <==> exists|j2: int|
                    0 <= j2 < j && codes@[(#[trigger] r@[j2]) as int]@ == codes@[i as int]@,
            decreases r@.len() - j,
        {
            if codes[r[j]] == codes[i] {
                found = true;
            }
            j = j + 1;
        }
        proof {
            assert(views(codes@.take(i + 1)).drop_last() =~= views(codes@.take(i as int)));
            assert(views(codes@.take(i + 1)).last() == codes@[i as int]@);
            assert(found <==> mapped_prefix.contains(codes@[i as int]@)) by {
                if found {
                    let j2 = choose|j2: int|
                        0 <= j2 < r@.len() && codes@[(#[trigger] r@[j2]) as int]@ == codes@[i
                            as int]@;
                    assert(mapped_prefix[j2] == codes@[i as int]@);
                } else {
                    if mapped_prefix.contains(codes@[i as int]@) {
                        let j2 = choose|j2: int|
                            0 <= j2 < mapped_prefix.len() && mapped_prefix[j2] == codes@[i
                                as int]@;
                        assert(codes@[r@[j2] as int]@ == codes@[i as int]@);
                    }
                }
            }
        }
        if !found {
            r.push(i);
            proof {
                assert(r@.map_values(|u: usize| codes@[u as int]@) =~= mapped_prefix.push(
                    codes@[i as int]@,
                ));
                assert forall|j2: int, k: int|
                    0 <= j2 < r@.len() && 0 <= k < r@[j2] implies (#[trigger] codes@[k])@
                    != codes@[(#[trigger] r@[j2]) as int]@ by {
                    if j2 + 1 == r@.len() {
                        assert(r@[j2] == i);
                        if codes@[k]@ == codes@[i as int]@ {
                            assert(codes@.take(i as int)[k]@ == codes@[k]@);
                            assert(views(codes@.take(i as int))[k] == codes@[k]@);
                            crate::import::lemma_dedup_first_contains(
                                views(codes@.take(i as int)),
                                codes@[k]@,
                            );
                        }
                    }
                }
                assert forall|i2: int| 0 <= i2 < i + 1 implies exists|j2: int|
                    0 <= j2 < r@.len() && codes@[(#[trigger] r@[j2]) as int]@ == (
                    #[trigger] codes@[i2])@ by {
                    if i2 < i {
                        let w = choose|j2: int|
                            0 <= j2 < prior_r.len() && codes@[(#[trigger] prior_r[j2]) as int]@
                                == codes@[i2]@;
                        assert(r@[w] == prior_r[w]);
                        assert(codes@[(r@[w]) as int]@ == codes@[i2]@);
                    } else {
                        assert(r@[r@.len() - 1] == i);
                        assert(codes@[(r@[r@.len() - 1]) as int]@ == codes@[i2]@);
                    }
                }
            }
        } else {
            proof {
                assert(r@.map_values(|u: usize| codes@[u as int]@) == dedup_first(
                    views(codes@.take(i + 1)),
                ));
                assert forall|i2: int| 0 <= i2 < i + 1 implies exists|j2: int|
                    0 <= j2 < r@.len() && codes@[(#[trigger] r@[j2]) as int]@ == (
                    #[trigger] codes@[i2])@ by {
                    if i2 == i {
                        let w = choose|j2: int|
                            0 <= j2 < r@.len() && codes@[(#[trigger] r@[j2]) as int]@ == codes@[i
                                as int]@;
                        assert(codes@[(r@[w]) as int]@ == codes@[i2]@);
                    }
                }
            }
        }
        i = i + 1;
    }
    proof {
        assert(codes@.take(codes@.len() as int) =~= codes@);
    }
    r
}

/// The region natural keys of the rows, in row order.
pub open spec fn region_codes(rows: Seq<FlatRow>) -> Seq<Seq<char>> {
    rows.map_values(|r: FlatRow| r.region_code@)
}

/// The district natural keys of the rows, in row order.
pub open spec fn district_codes(rows: Seq<FlatRow>) -> Seq<Seq<char>> {
    rows.map_values(|r: FlatRow| r.district_code@)
}

/// The office natural keys of the rows, in row order.
pub open spec fn orp_codes(rows: Seq<FlatRow>) -> Seq<Seq<char>> {
    rows.map_values(|r: FlatRow| r.orp_code@)
}

/// No earlier row carries the same region natural key.
pub open spec fn first_region_row(rows: Seq<FlatRow>, i: int) -> bool {
    forall|k: int| 0 <= k < i ==> (#[trigger] rows[k]).region_code@ != rows[i].region_code@
}

/// No earlier row carries the same district natural key.
pub open spec fn first_district_row(rows: Seq<FlatRow>, i: int) -> bool {
    forall|k: int| 0 <= k < i ==> (#[trigger] rows[k]).district_code@ != rows[i].district_code@
}

/// No earlier row carries the same office natural key.
pub open spec fn first_orp_row(rows: Seq<FlatRow>, i: int) -> bool {
    forall|k: int| 0 <= k < i ==> (#[trigger] rows[k]).orp_code@ != rows[i].orp_code@
}

/// The region record is derived from row `i`: the first row bearing its
/// natural key, supplying its name, its slug and its NUTS code.
pub open spec fn region_record_from(rows: Seq<FlatRow>, r: Region, i: int) -> bool {
    &&& 0 <= i < rows.len()
    &&& first_region_row(rows, i)
    &&& r.region_code@ == rows[i].region_code@
    &&& r.name@ == rows[i].region_name@
    &&& r.slug@ == slug_seq(rows[i].region_name@)
    &&& r.nuts_code@ == rows[i].nuts_code@
}

/// Some row of the extract is the first bearing this region's natural key
/// and supplied its fields.
pub open spec fn region_has_source(rows: Seq<FlatRow>, r: Region) -> bool {
    exists|i: int| region_record_from(rows, r, i)
}

/// What the region pass yields: one record per distinct region natural
/// key, in first-seen order, surrogate ids counting up from one, each
/// record derived from the first row bearing its key.
pub open spec fn region_records_ok(rows: Seq<FlatRow>, regions: Seq<Region>) -> bool {
    &&& regions.map_values(|r: Region| r.region_code@) == dedup_first(region_codes(rows))
    &&& forall|j: int| 0 <= j < regions.len() ==> (#[trigger] regions[j]).id == j + 1
    &&& forall|j: int|
        0 <= j < regions.len() ==> region_has_source(rows, #[trigger] regions[j])
}

/// The table records exactly the natural keys of the regions, in order,
/// each with the region's surrogate id.
pub open spec fn table_matches_regions(tab: IdTable, regions: Seq<Region>) -> bool {
    &&& tab.wf()
    &&& tab.entries@.len() == regions.len()
    &&& forall|j: int|
        0 <= j < regions.len() ==> (#[trigger] tab.entries@[j]).code@ == regions[j].region_code@
            && tab.entries@[j].id == regions[j].id
}

/// The region pass: rows are walked in input order; the first row bearing
/// each region natural key yields one region record, later rows with the
/// same key are skipped. Surrogate ids count up from one in first-seen
/// order, and the returned table resolves every row's region key.
#[verifier::rlimit(50)]
#[verifier::loop_isolation(false)]
pub fn plan_regions(rows: &Vec<FlatRow>) -> (res: (Vec<Region>, IdTable))
    requires
        rows@.len() <= 0x7fff_ffff,
    ensures
        region_records_ok(rows@, res.0@),
        table_matches_regions(res.1, res.0@),
        forall|i: int|
            0 <= i < rows@.len() ==> res.1.contains_code((#[trigger] rows@[i]).region_code@),
{
    let mut codes: Vec<String> = Vec::new();
    let mut i: usize = 0;
    while i < rows.len()
        invariant
            codes@.len() == i <= rows@.len(),
            forall|k: int| 0 <= k < i ==> (#[trigger] codes@[k])@ == rows@[k].region_code@,
        decreases rows@.len() - i,
    {
        codes.push(rows[i].region_code.clone());
        i = i + 1;
    }
    proof {
        assert(views(codes@) =~= region_codes(rows@));
    }
    let firsts = dedup_indices(&codes);
    let mut regions: Vec<Region> = Vec::new();
    let mut tab = IdTable::new();
    let mut j: usize = 0;
    while j < firsts.len()
        invariant
            j <= firsts@.len(),
            regions@.len() == j,
            tab.wf(),
            tab.entries@.len() == j,
            forall|j2: int|
                0 <= j2 < j ==> (#[trigger] tab.entries@[j2]).code@ == regions@[j2].region_code@
                    && tab.entries@[j2].id == regions@[j2].id,
            forall|j2: int|
                0 <= j2 < j ==> {
                    let row = rows@[(firsts@[j2]) as int];
                    &&& (#[trigger] regions@[j2]).id == j2 + 1
                    &&& regions@[j2].region_code@ == row.region_code@
                    &&& regions@[j2].name@ == row.region_name@
                    &&& regions@[j2].slug@ == slug_seq(row.region_name@)
                    &&& regions@[j2].nuts_code@ == row.nuts_code@
                },
        decreases firsts@.len() - j,
    {
        let ix = firsts[j];
        let row = &rows[ix];
        let slug = slug_from_name(row.region_name.as_str());
        let id: i32 = (j + 1) as i32;
        let region = Region {
            id,
            name: row.region_name.clone(),
            slug,
            region_code: row.region_code.clone(),
            nuts_code: row.nuts_code.clone(),
        };
        regions.push(region);
        proof {
            assert(!tab.contains_code(rows@[ix as int].region_code@)) by {
                if tab.contains_code(rows@[ix as int].region_code@) {
                    let w = choose|w: int|
                        0 <= w < tab.entries@.len() && (#[trigger] tab.entries@[w]).code@
                            == rows@[ix as int].region_code@;
                    assert(regions@[w].region_code@ == rows@[(firsts@[w]) as int].region_code@);
                    assert(codes@[(firsts@[w]) as int]@ == rows@[(firsts@[w]) as int].region_code@);
                    assert(firsts@[w] < firsts@[j as int]);
                    assert(codes@[(firsts@[w]) as int]@ != codes@[(firsts@[j as int]) as int]@);
                }
            }
        }
        tab.insert(row.region_code.clone(), id);
        j = j + 1;
    }
    proof {
        assert(regions@.map_values(|r: Region| r.region_code@) =~= firsts@.map_values(
            |u: usize| codes@[u as int]@,
        ));
        assert forall|j2: int|
            0 <= j2 < regions@.len() implies region_has_source(rows@, #[trigger] regions@[j2]) by {
            let ix = firsts@[j2] as int;
            assert(first_region_row(rows@, ix)) by {
                assert forall|k: int|
                    0 <= k < ix implies (#[trigger] rows@[k]).region_code@ != rows@[ix].region_code@ by {
                    assert(codes@[k]@ != codes@[ix]@);
                    assert(codes@[k]@ == rows@[k].region_code@);
                }
            }
            assert(region_record_from(rows@, regions@[j2], ix));
        }
        assert forall|i2: int|
            0 <= i2 < rows@.len() implies tab.contains_code(
            (#[trigger] rows@[i2]).region_code@,
        ) by {
            let w = choose|j2: int|
                0 <= j2 < firsts@.len() && codes@[(#[trigger] firsts@[j2]) as int]@ == codes@[i2]@;
            assert(tab.entries@[w].code@ == regions@[w].region_code@);
            assert(regions@[w].region_code@ == rows@[(firsts@[w]) as int].region_code@);
            assert(codes@[(firsts@[w]) as int]@ == rows@[(firsts@[w]) as int].region_code@);
            assert(codes@[i2]@ == rows@[i2].region_code@);
        }
    }
    (regions, tab)
}

/// The district record is derived from row `i`: the first row bearing its
/// natural key, supplying its name and slug; its parent surrogate id is
/// what that row's region natural key resolves to.
pub open spec fn district_record_from(
    rows: Seq<FlatRow>,
    parents: IdTable,
    d: District,
    i: int,
) -> bool {
    &&& 0 <= i < rows.len()
    &&& first_district_row(rows, i)
    &&& d.district_code@ == rows[i].district_code@
    &&& d.name@ == rows[i].district_name@
    &&& d.slug@ == slug_seq(rows[i].district_name@)
    &&& parents.contains_code(rows[i].region_code@)
    &&& d.region_id == parents.spec_id_of(rows[i].region_code@)
}

/// Some row of the extract is the first bearing this district's natural
/// key and supplied its fields and parent.
pub open spec fn district_has_source(rows: Seq<FlatRow>, parents: IdTable, d: District) -> bool {
    exists|i: int| district_record_from(rows, parents, d, i)
}

/// What the district pass yields, against the region table it was handed.
pub open spec fn district_records_ok(
    rows: Seq<FlatRow>,
    parents: IdTable,
    districts: Seq<District>,
) -> bool {
    &&& districts.map_values(|d: District| d.district_code@) == dedup_first(district_codes(rows))
    &&& forall|j: int| 0 <= j < districts.len() ==> (#[trigger] districts[j]).id == j + 1
    &&& forall|j: int|
        0 <= j < districts.len() ==> district_has_source(rows, parents, #[trigger] districts[j])
}

/// The table records exactly the natural keys of the districts, in order,
/// each with the district's surrogate id.
pub open spec fn table_matches_districts(tab: IdTable, districts: Seq<District>) -> bool {
    &&& tab.wf()
    &&& tab.entries@.len() == districts.len()
    &&& forall|j: int|
        0 <= j < districts.len() ==> (#[trigger] tab.entries@[j]).code@
            == districts[j].district_code@ && tab.entries@[j].id == districts[j].id
}

/// The district pass: one district per distinct district natural key in
/// first-seen order, its parent resolved through the region table. The
/// pass fails exactly when some first-seen district row carries a region
/// natural key the table does not resolve.
#[verifier::rlimit(50)]
#[verifier::loop_isolation(false)]
pub fn plan_districts(rows: &Vec<FlatRow>, parents: &IdTable) -> (res: Result<
    (Vec<District>, IdTable),
    ImportError,
>)
    requires
        parents.wf(),
        rows@.len() <= 0x7fff_ffff,
    ensures
        res is Ok <==> (forall|i: int|
            0 <= i < rows@.len() && first_district_row(rows@, i) ==> parents.contains_code(
                (#[trigger] rows@[i]).region_code@,
            )),
        res matches Ok(p) ==> {
            &&& district_records_ok(rows@, *parents, p.0@)
            &&& table_matches_districts(p.1, p.0@)
            &&& forall|i: int|
                0 <= i < rows@.len() ==> p.1.contains_code((#[trigger] rows@[i]).district_code@)
        },
        res matches Err(e) ==> (e matches ImportError::MissingParent { level, parent_code }
            && level == Level::District && exists|i: int|
            0 <= i < rows@.len() && first_district_row(rows@, i) && !parents.contains_code(
                (#[trigger] rows@[i]).region_code@,
            ) && parent_code@ == rows@[i].region_code@),
{
    let mut codes: Vec<String> = Vec::new();
    let mut i: usize = 0;
    while i < rows.len()
        invariant
            codes@.len() == i <= rows@.len(),
            forall|k: int| 0 <= k < i ==> (#[trigger] codes@[k])@ == rows@[k].district_code@,
        decreases rows@.len() - i,
    {
        codes.push(rows[i].district_code.clone());
        i = i + 1;
    }
    proof {
        assert(views(codes@) =~= district_codes(rows@));
    }
    let firsts = dedup_indices(&codes);
    let mut districts: Vec<District> = Vec::new();
    let mut tab = IdTable::new();
    let mut j: usize = 0;
    while j < firsts.len()
        invariant
            j <= firsts@.len(),
            districts@.len() == j,
            tab.wf(),
            tab.entries@.len() == j,
            forall|j2: int|
                0 <= j2 < j ==> (#[trigger] tab.entries@[j2]).code@ == districts@[j2].district_code@
                    && tab.entries@[j2].id == districts@[j2].id,
            forall|j2: int|
                0 <= j2 < j ==> {
                    let row = rows@[(firsts@[j2]) as int];
                    &&& (#[trigger] districts@[j2]).id == j2 + 1
                    &&& districts@[j2].district_code@ == row.district_code@
                    &&& districts@[j2].name@ == row.district_name@
                    &&& districts@[j2].slug@ == slug_seq(row.district_name@)
                    &&& parents.contains_code(row.region_code@)
                    &&& districts@[j2].region_id == parents.spec_id_of(row.region_code@)
                },
        decreases firsts@.len() - j,
    {
        let ix = firsts[j];
        let row = &rows[ix];
        proof {
            assert(first_district_row(rows@, ix as int)) by {
                assert forall|k: int|
                    0 <= k < ix implies (#[trigger] rows@[k]).district_code@ != rows@[ix as int].district_code@ by {
                    assert(codes@[k]@ != codes@[ix as int]@);
                    assert(codes@[k]@ == rows@[k].district_code@);
                }
            }
        }
        let region_id = match parents.id_of(&row.region_code) {
            Some(pid) => pid,
            None => {
                return Err(
                    ImportError::MissingParent {
                        level: Level::District,
                        parent_code: row.region_code.clone(),
                    },
                );
            },
        };
        let slug = slug_from_name(row.district_name.as_str());
        let id: i32 = (j + 1) as i32;
        let district = District {
            id,
            name: row.district_name.clone(),
            slug,
            district_code: row.district_code.clone(),
            region_id,
        };
        districts.push(district);
        proof {
            assert(!tab.contains_code(rows@[ix as int].district_code@)) by {
                if tab.contains_code(rows@[ix as int].district_code@) {
                    let w = choose|w: int|
                        0 <= w < tab.entries@.len() && (#[trigger] tab.entries@[w]).code@
                            == rows@[ix as int].district_code@;
                    assert(districts@[w].district_code@ == rows@[(firsts@[w]) as int].district_code@);
                    assert(codes@[(firsts@[w]) as int]@ == rows@[(firsts@[w]) as int].district_code@);
                    assert(firsts@[w] < firsts@[j as int]);
                    assert(codes@[(firsts@[w]) as int]@ != codes@[(firsts@[j as int]) as int]@);
                }
            }
        }
        tab.insert(row.district_code.clone(), id);
        j = j + 1;
    }
    proof {
        assert(districts@.map_values(|d: District| d.district_code@) =~= firsts@.map_values(
            |u: usize| codes@[u as int]@,
        ));
        assert forall|j2: int|
            0 <= j2 < districts@.len() implies district_has_source(
            rows@,
            *parents,
            #[trigger] districts@[j2],
        ) by {
            let ix = firsts@[j2] as int;
            assert(first_district_row(rows@, ix)) by {
                assert forall|k: int|
                    0 <= k < ix implies (#[trigger] rows@[k]).district_code@ != rows@[ix].district_code@ by {
                    assert(codes@[k]@ != codes@[ix]@);
                    assert(codes@[k]@ == rows@[k].district_code@);
                }
            }
            assert(district_record_from(rows@, *parents, districts@[j2], ix));
        }
        assert forall|i2: int|
            0 <= i2 < rows@.len() implies tab.contains_code(
            (#[trigger] rows@[i2]).district_code@,
        ) by {
            let w = choose|j2: int|
                0 <= j2 < firsts@.len() && codes@[(#[trigger] firsts@[j2]) as int]@ == codes@[i2]@;
            assert(tab.entries@[w].code@ == districts@[w].district_code@);
            assert(districts@[w].district_code@ == rows@[(firsts@[w]) as int].district_code@);
            assert(codes@[(firsts@[w]) as int]@ == rows@[(firsts@[w]) as int].district_code@);
            assert(codes@[i2]@ == rows@[i2].district_code@);
        }
        assert forall|i2: int|
            0 <= i2 < rows@.len() && first_district_row(rows@, i2) implies parents.contains_code(
            (#[trigger] rows@[i2]).region_code@,
        ) by {
            let w = choose|j2: int|
                0 <= j2 < firsts@.len() && codes@[(#[trigger] firsts@[j2]) as int]@ == codes@[i2]@;
            let f = firsts@[w] as int;
            assert(codes@[f]@ == rows@[f].district_code@);
            assert(codes@[i2]@ == rows@[i2].district_code@);
            if f < i2 {
                assert(rows@[f].district_code@ != rows@[i2].district_code@);
            }
            if f > i2 {
                assert(codes@[i2]@ != codes@[f]@);
            }
            assert(f == i2);
            assert(parents.contains_code(rows@[f].region_code@));
        }
    }
    Ok((districts, tab))
}

/// The office record is derived from row `i`: the first row bearing its
/// natural key, supplying its name and slug; its parent surrogate id is
/// what that row's district natural key resolves to.
pub open spec fn orp_record_from(rows: Seq<FlatRow>, parents: IdTable, o: Orp, i: int) -> bool {
    &&& 0 <= i < rows.len()
    &&& first_orp_row(rows, i)
    &&& o.orp_code@ == rows[i].orp_code@
    &&& o.name@ == rows[i].orp_name@
    &&& o.slug@ == slug_seq(rows[i].orp_name@)
    &&& parents.contains_code(rows[i].district_code@)
    &&& o.district_id == parents.spec_id_of(rows[i].district_code@)
}

/// Some row of the extract is the first bearing this office's natural key
/// and supplied its fields and parent.
pub open spec fn orp_has_source(rows: Seq<FlatRow>, parents: IdTable, o: Orp) -> bool {
    exists|i: int| orp_record_from(rows, parents, o, i)
}

/// What the office pass yields, against the district table it was handed.
pub open spec fn orp_records_ok(rows: Seq<FlatRow>, parents: IdTable, orps: Seq<Orp>) -> bool {
    &&& orps.map_values(|o: Orp| o.orp_code@) == dedup_first(orp_codes(rows))
    &&& forall|j: int| 0 <= j < orps.len() ==> (#[trigger] orps[j]).id == j + 1
    &&& forall|j: int|
        0 <= j < orps.len() ==> orp_has_source(rows, parents, #[trigger] orps[j])
}

/// The table records exactly the natural keys of the offices, in order,
/// each with the office's surrogate id.
pub open spec fn table_matches_orps(tab: IdTable, orps: Seq<Orp>) -> bool {
    &&& tab.wf()
    &&& tab.entries@.len() == orps.len()
    &&& forall|j: int|
        0 <= j < orps.len() ==> (#[trigger] tab.entries@[j]).code@ == orps[j].orp_code@
            && tab.entries@[j].id == orps[j].id
}

/// The office pass: one office per distinct office natural key in
/// first-seen order, its parent resolved through the district table. The
/// pass fails exactly when some first-seen office row carries a district
/// natural key the table does not resolve.
#[verifier::rlimit(50)]
#[verifier::loop_isolation(false)]
pub fn plan_orps(rows: &Vec<FlatRow>, parents: &IdTable) -> (res: Result<
    (Vec<Orp>, IdTable),
    ImportError,
>)
    requires
        parents.wf(),
        rows@.len() <= 0x7fff_ffff,
    ensures
        res is Ok <==> (forall|i: int|
            0 <= i < rows@.len() && first_orp_row(rows@, i) ==> parents.contains_code(
                (#[trigger] rows@[i]).district_code@,
            )),
        res matches Ok(p) ==> {
            &&& orp_records_ok(rows@, *parents, p.0@)
            &&& table_matches_orps(p.1, p.0@)
            &&& forall|i: int|
                0 <= i < rows@.len() ==> p.1.contains_code((#[trigger] rows@[i]).orp_code@)
        },
        res matches Err(e) ==> (e matches ImportError::MissingParent { level, parent_code }
            && level == Level::Orp && exists|i: int|
            0 <= i < rows@.len() && first_orp_row(rows@, i) && !parents.contains_code(
                (#[trigger] rows@[i]).district_code@,
            ) && parent_code@ == rows@[i].district_code@),
{
    let mut codes: Vec<String> = Vec::new();
    let mut i: usize = 0;
    while i < rows.len()
        invariant
            codes@.len() == i <= rows@.len(),
            forall|k: int| 0 <= k < i ==> (#[trigger] codes@[k])@ == rows@[k].orp_code@,
        decreases rows@.len() - i,
    {
        codes.push(rows[i].orp_code.clone());
        i = i + 1;
    }
    proof {
        assert(views(codes@) =~= orp_codes(rows@));
    }
    let firsts = dedup_indices(&codes);
    let mut orps: Vec<Orp> = Vec::new();
    let mut tab = IdTable::new();
    let mut j: usize = 0;
    while j < firsts.len()
        invariant
            j <= firsts@.len(),
            orps@.len() == j,
            tab.wf(),
            tab.entries@.len() == j,
            forall|j2: int|
                0 <= j2 < j ==> (#[trigger] tab.entries@[j2]).code@ == orps@[j2].orp_code@
                    && tab.entries@[j2].id == orps@[j2].id,
            forall|j2: int|
                0 <= j2 < j ==> {
                    let row = rows@[(firsts@[j2]) as int];
                    &&& (#[trigger] orps@[j2]).id == j2 + 1
                    &&& orps@[j2].orp_code@ == row.orp_code@
                    &&& orps@[j2].name@ == row.orp_name@
                    &&& orps@[j2].slug@ == slug_seq(row.orp_name@)
                    &&& parents.contains_code(row.district_code@)
                    &&& orps@[j2].district_id == parents.spec_id_of(row.district_code@)
                },
        decreases firsts@.len() - j,
    {
        let ix = firsts[j];
        let row = &rows[ix];
        proof {
            assert(first_orp_row(rows@, ix as int)) by {
                assert forall|k: int|
                    0 <= k < ix implies (#[trigger] rows@[k]).orp_code@ != rows@[ix as int].orp_code@ by {
                    assert(codes@[k]@ != codes@[ix as int]@);
                    assert(codes@[k]@ == rows@[k].orp_code@);
                }
            }
        }
        let district_id = match parents.id_of(&row.district_code) {
            Some(pid) => pid,
            None => {
                return Err(
                    ImportError::MissingParent {
                        level: Level::Orp,
                        parent_code: row.district_code.clone(),
                    },
                );
            },
        };
        let slug = slug_from_name(row.orp_name.as_str());
        let id: i32 = (j + 1) as i32;
        let orp = Orp {
            id,
            name: row.orp_name.clone(),
            slug,
            orp_code: row.orp_code.clone(),
            district_id,
        };
        orps.push(orp);
        proof {
            assert(!tab.contains_code(rows@[ix as int].orp_code@)) by {
                if tab.contains_code(rows@[ix as int].orp_code@) {
                    let w = choose|w: int|
                        0 <= w < tab.entries@.len() && (#[trigger] tab.entries@[w]).code@
                            == rows@[ix as int].orp_code@;
                    assert(orps@[w].orp_code@ == rows@[(firsts@[w]) as int].orp_code@);
                    assert(codes@[(firsts@[w]) as int]@ == rows@[(firsts@[w]) as int].orp_code@);
                    assert(firsts@[w] < firsts@[j as int]);
                    assert(codes@[(firsts@[w]) as int]@ != codes@[(firsts@[j as int]) as int]@);
                }
            }
        }
        tab.insert(row.orp_code.clone(), id);
        j = j + 1;
    }
    proof {
        assert(orps@.map_values(|o: Orp| o.orp_code@) =~= firsts@.map_values(
            |u: usize| codes@[u as int]@,
        ));
        assert forall|j2: int|
            0 <= j2 < orps@.len() implies orp_has_source(
            rows@,
            *parents,
            #[trigger] orps@[j2],
        ) by {
            let ix = firsts@[j2] as int;
            assert(first_orp_row(rows@, ix)) by {
                assert forall|k: int|
                    0 <= k < ix implies (#[trigger] rows@[k]).orp_code@ != rows@[ix].orp_code@ by {
                    assert(codes@[k]@ != codes@[ix]@);
                    assert(codes@[k]@ == rows@[k].orp_code@);
                }
            }
            assert(orp_record_from(rows@, *parents, orps@[j2], ix));
        }
        assert forall|i2: int|
            0 <= i2 < rows@.len() implies tab.contains_code((#[trigger] rows@[i2]).orp_code@) by {
            let w = choose|j2: int|
                0 <= j2 < firsts@.len() && codes@[(#[trigger] firsts@[j2]) as int]@ == codes@[i2]@;
            assert(tab.entries@[w].code@ == orps@[w].orp_code@);
            assert(orps@[w].orp_code@ == rows@[(firsts@[w]) as int].orp_code@);
            assert(codes@[(firsts@[w]) as int]@ == rows@[(firsts@[w]) as int].orp_code@);
            assert(codes@[i2]@ == rows@[i2].orp_code@);
        }
        assert forall|i2: int|
            0 <= i2 < rows@.len() && first_orp_row(rows@, i2) implies parents.contains_code(
            (#[trigger] rows@[i2]).district_code@,
        ) by {
            let w = choose|j2: int|
                0 <= j2 < firsts@.len() && codes@[(#[trigger] firsts@[j2]) as int]@ == codes@[i2]@;
            let f = firsts@[w] as int;
            assert(codes@[f]@ == rows@[f].orp_code@);
            assert(codes@[i2]@ == rows@[i2].orp_code@);
            if f < i2 {
                assert(rows@[f].orp_code@ != rows@[i2].orp_code@);
            }
            if f > i2 {
                assert(codes@[i2]@ != codes@[f]@);
            }
            assert(f == i2);
            assert(parents.contains_code(rows@[f].district_code@));
        }
    }
    Ok((orps, tab))
}

/// The municipality record is derived from row `i` alone; its parent
/// surrogate id is what that row's office natural key resolves to.
pub open spec fn municipality_record_from(
    rows: Seq<FlatRow>,
    parents: IdTable,
    m: Municipality,
    i: int,
) -> bool {
    &&& 0 <= i < rows.len()
    &&& m.id == i + 1
    &&& m.municipality_code@ == rows[i].municipality_code@
    &&& m.pou_code@ == rows[i].pou_code@
    &&& m.name@ == rows[i].municipality_name@
    &&& m.slug@ == slug_seq(rows[i].municipality_name@)
    &&& parents.contains_code(rows[i].orp_code@)
    &&& m.orp_id == parents.spec_id_of(rows[i].orp_code@)
}

/// What the municipality pass yields: no deduplication, one record per
/// row in row order, against the office table it was handed.
pub open spec fn municipality_records_ok(
    rows: Seq<FlatRow>,
    parents: IdTable,
    ms: Seq<Municipality>,
) -> bool {
    &&& ms.len() == rows.len()
    &&& forall|i: int|
        0 <= i < rows.len() ==> municipality_record_from(rows, parents, #[trigger] ms[i], i)
}

/// The municipality pass: every row yields exactly one municipality, its
/// parent resolved through the office table. The pass fails exactly when
/// some row carries an office natural key the table does not resolve.
#[verifier::loop_isolation(false)]
pub fn plan_municipalities(rows: &Vec<FlatRow>, parents: &IdTable) -> (res: Result<
    Vec<Municipality>,
    ImportError,
>)
    requires
        parents.wf(),
        rows@.len() <= 0x7fff_ffff,
    ensures
        res is Ok <==> (forall|i: int|
            0 <= i < rows@.len() ==> parents.contains_code((#[trigger] rows@[i]).orp_code@)),
        res matches Ok(ms) ==> municipality_records_ok(rows@, *parents, ms@),
        res matches Err(e) ==> (e matches ImportError::MissingParent { level, parent_code }
            && level == Level::Municipality && exists|i: int|
            0 <= i < rows@.len() && !parents.contains_code((#[trigger] rows@[i]).orp_code@)
                && parent_code@ == rows@[i].orp_code@),
{
    let mut ms: Vec<Municipality> = Vec::new();
    let mut i: usize = 0;
    while i < rows.len()
        invariant
            i <= rows@.len(),
            ms@.len() == i,
            forall|i2: int|
                0 <= i2 < i ==> municipality_record_from(rows@, *parents, #[trigger] ms@[i2], i2),
        decreases rows@.len() - i,
    {
        let row = &rows[i];
        let orp_id = match parents.id_of(&row.orp_code) {
            Some(pid) => pid,
            None => {
                return Err(
                    ImportError::MissingParent {
                        level: Level::Municipality,
                        parent_code: row.orp_code.clone(),
                    },
                );
            },
        };
        let slug = slug_from_name(row.municipality_name.as_str());
        let id: i32 = (i + 1) as i32;
        let m = Municipality {
            id,
            name: row.municipality_name.clone(),
            slug,
            municipality_code: row.municipality_code.clone(),
            pou_code: row.pou_code.clone(),
            orp_id,
        };
        ms.push(m);
        i = i + 1;
    }
    proof {
        assert forall|i2: int|
            0 <= i2 < rows@.len() implies parents.contains_code(
            (#[trigger] rows@[i2]).orp_code@,
        ) by {
            assert(municipality_record_from(rows@, *parents, ms@[i2], i2));
        }
    }
    Ok(ms)
}

/// Everything a successful import persists, by level, in insertion order.
#[derive(Debug, Clone)]
pub struct ImportOutcome {
    pub regions: Vec<Region>,
    pub districts: Vec<District>,
    pub orps: Vec<Orp>,
    pub municipalities: Vec<Municipality>,
}

impl ImportOutcome {
    /// How many records each level received: regions, districts, offices,
    /// municipalities.
    pub fn counts(&self) -> (r: (usize, usize, usize, usize))
        ensures
            r.0 == self.regions@.len(),
            r.1 == self.districts@.len(),
            r.2 == self.orps@.len(),
            r.3 == self.municipalities@.len(),
    {
        (self.regions.len(), self.districts.len(), self.orps.len(), self.municipalities.len())
    }
}

/// The district's fields come from row `i`: the first row bearing its
/// natural key.
pub open spec fn district_fields_from(rows: Seq<FlatRow>, d: District, i: int) -> bool {
    &&& 0 <= i < rows.len()
    &&& first_district_row(rows, i)
    &&& d.district_code@ == rows[i].district_code@
    &&& d.name@ == rows[i].district_name@
    &&& d.slug@ == slug_seq(rows[i].district_name@)
}

/// Referential integrity of one district: its fields come from a first
/// row bearing its key, and its parent surrogate id is that of a persisted
/// region whose natural key stands on that same row.
pub open spec fn imported_district_ok(
    rows: Seq<FlatRow>,
    regions: Seq<Region>,
    d: District,
) -> bool {
    exists|i: int|
        #[trigger] district_fields_from(rows, d, i) && exists|k: int|
            0 <= k < regions.len() && (#[trigger] regions[k]).region_code@ == rows[i].region_code@
                && regions[k].id == d.region_id
}

/// The office's fields come from row `i`: the first row bearing its
/// natural key.
pub open spec fn orp_fields_from(rows: Seq<FlatRow>, o: Orp, i: int) -> bool {
    &&& 0 <= i < rows.len()
    &&& first_orp_row(rows, i)
    &&& o.orp_code@ == rows[i].orp_code@
    &&& o.name@ == rows[i].orp_name@
    &&& o.slug@ == slug_seq(rows[i].orp_name@)
}

/// Referential integrity of one office: its fields come from a first row
/// bearing its key, and its parent surrogate id is that of a persisted
/// district whose natural key stands on that same row.
pub open spec fn imported_orp_ok(rows: Seq<FlatRow>, districts: Seq<District>, o: Orp) -> bool {
    exists|i: int|
        #[trigger] orp_fields_from(rows, o, i) && exists|k: int|
            0 <= k < districts.len() && (#[trigger] districts[k]).district_code@
                == rows[i].district_code@ && districts[k].id == o.district_id
}

/// Referential integrity of the municipality built from row `i`: its
/// fields come from that row, and its parent surrogate id is that of a
/// persisted office whose natural key stands on that same row.
pub open spec fn imported_municipality_ok(
    rows: Seq<FlatRow>,
    orps: Seq<Orp>,
    m: Municipality,
    i: int,
) -> bool {
    &&& 0 <= i < rows.len()
    &&& m.id == i + 1
    &&& m.municipality_code@ == rows[i].municipality_code@
    &&& m.pou_code@ == rows[i].pou_code@
    &&& m.name@ == rows[i].municipality_name@
    &&& m.slug@ == slug_seq(rows[i].municipality_name@)
    &&& exists|k: int|
        0 <= k < orps.len() && (#[trigger] orps[k]).orp_code@ == rows[i].orp_code@ && orps[k].id
            == m.orp_id
}

/// Everything a successful import guarantees: per level one record per
/// distinct natural key (municipalities: one per row) in first-seen
/// order, surrogate ids counting up from one, fields and slug from the
/// first row bearing the key, and every child linked to a persisted
/// parent from its own row.
pub open spec fn import_ok(rows: Seq<FlatRow>, out: ImportOutcome) -> bool {
    &&& region_records_ok(rows, out.regions@)
    &&& out.districts@.map_values(|d: District| d.district_code@) == dedup_first(
        district_codes(rows),
    )
    &&& forall|j: int| 0 <= j < out.districts@.len() ==> (#[trigger] out.districts@[j]).id == j + 1
    &&& forall|j: int|
        0 <= j < out.districts@.len() ==> imported_district_ok(
            rows,
            out.regions@,
            #[trigger] out.districts@[j],
        )
    &&& out.orps@.map_values(|o: Orp| o.orp_code@) == dedup_first(orp_codes(rows))
    &&& forall|j: int| 0 <= j < out.orps@.len() ==> (#[trigger] out.orps@[j]).id == j + 1
    &&& forall|j: int|
        0 <= j < out.orps@.len() ==> imported_orp_ok(rows, out.districts@, #[trigger] out.orps@[j])
    &&& out.municipalities@.len() == rows.len()
    &&& forall|i: int|
        0 <= i < rows.len() ==> imported_municipality_ok(
            rows,
            out.orps@,
            #[trigger] out.municipalities@[i],
            i,
        )
}

/// The whole import: four ordered passes over one in-memory extract.
/// Because every pass walks the same rows, every parent natural key a
/// child row carries has been resolved by the previous pass, so the run
/// cannot fail on a broken referential chain: it always returns the full
/// planned hierarchy.
#[verifier::rlimit(50)]
pub fn import(rows: &Vec<FlatRow>) -> (res: Result<ImportOutcome, ImportError>)
    requires
        rows@.len() <= 0x7fff_ffff,
    ensures
        res is Ok,
        res matches Ok(out) ==> import_ok(rows@, out),
{
    let (regions, rtab) = plan_regions(rows);
    let (districts, dtab) = plan_districts(rows, &rtab)?;
    let (orps, otab) = plan_orps(rows, &dtab)?;
    let municipalities = plan_municipalities(rows, &otab)?;
    let out = ImportOutcome { regions, districts, orps, municipalities };
    proof {
        assert forall|j: int|
            0 <= j < out.districts@.len() implies imported_district_ok(
            rows@,
            out.regions@,
            #[trigger] out.districts@[j],
        ) by {
            assert(district_has_source(rows@, rtab, out.districts@[j]));
            let i = choose|i: int| district_record_from(rows@, rtab, out.districts@[j], i);
            assert(rtab.contains_code(rows@[i].region_code@));
            let k = rtab.spec_index_of(rows@[i].region_code@);
            assert(0 <= k < rtab.entries@.len() && rtab.entries@[k].code@
                == rows@[i].region_code@);
            assert(rtab.entries@[k].code@ == out.regions@[k].region_code@);
            assert(rtab.entries@[k].id == out.regions@[k].id);
            assert(out.districts@[j].region_id == rtab.spec_id_of(rows@[i].region_code@));
            assert(district_fields_from(rows@, out.districts@[j], i));
        }
        assert forall|j: int|
            0 <= j < out.orps@.len() implies imported_orp_ok(
            rows@,
            out.districts@,
            #[trigger] out.orps@[j],
        ) by {
            assert(orp_has_source(rows@, dtab, out.orps@[j]));
            let i = choose|i: int| orp_record_from(rows@, dtab, out.orps@[j], i);
            assert(dtab.contains_code(rows@[i].district_code@));
            let k = dtab.spec_index_of(rows@[i].district_code@);
            assert(0 <= k < dtab.entries@.len() && dtab.entries@[k].code@
                == rows@[i].district_code@);
            assert(dtab.entries@[k].code@ == out.districts@[k].district_code@);
            assert(dtab.entries@[k].id == out.districts@[k].id);
            assert(out.orps@[j].district_id == dtab.spec_id_of(rows@[i].district_code@));
            assert(orp_fields_from(rows@, out.orps@[j], i));
        }
        assert forall|i: int|
            0 <= i < rows@.len() implies imported_municipality_ok(
            rows@,
            out.orps@,
            #[trigger] out.municipalities@[i],
            i,
        ) by {
            assert(municipality_record_from(rows@, otab, out.municipalities@[i], i));
            assert(otab.contains_code(rows@[i].orp_code@));
            let k = otab.spec_index_of(rows@[i].orp_code@);
            assert(0 <= k < otab.entries@.len() && otab.entries@[k].code@ == rows@[i].orp_code@);
            assert(otab.entries@[k].code@ == out.orps@[k].orp_code@);
            assert(otab.entries@[k].id == out.orps@[k].id);
            assert(out.municipalities@[i].orp_id == otab.spec_id_of(rows@[i].orp_code@));
        }
    }
    Ok(out)
}

/// Deduplication of rows that all repeat one value keeps exactly that one
/// value.
pub proof fn lemma_dedup_first_single(codes: Seq<Seq<char>>)
    requires
        codes.len() > 0,
        forall|i: int| 0 <= i < codes.len() ==> #[trigger] codes[i] == codes[0],
    ensures
        dedup_first(codes).len() == 1,
        dedup_first(codes)[0] == codes[0],
    decreases codes.len(),
{
    reveal_with_fuel(dedup_first, 2);
    if codes.len() == 1 {
    } else {
        assert forall|i: int|
            0 <= i < codes.drop_last().len() implies #[trigger] codes.drop_last()[i]
            == codes.drop_last()[0] by {
            assert(codes.drop_last()[i] == codes[i]);
            assert(codes.drop_last()[0] == codes[0]);
        }
        lemma_dedup_first_single(codes.drop_last());
        assert(codes.drop_last()[0] == codes[0]);
        assert(dedup_first(codes.drop_last()).contains(codes.last())) by {
            assert(dedup_first(codes.drop_last())[0] == codes.drop_last()[0]);
            assert(codes.last() == codes[0]);
        }
    }
}

/// However many rows repeat one region natural key, the region pass
/// yields exactly one region record, bearing that key: all those rows
/// resolve to its single surrogate id.
pub proof fn lemma_region_dedup_single(rows: Seq<FlatRow>, regions: Seq<Region>)
    requires
        rows.len() > 0,
        region_records_ok(rows, regions),
        forall|i: int|
            0 <= i < rows.len() ==> (#[trigger] rows[i]).region_code@ == rows[0].region_code@,
    ensures
        regions.len() == 1,
        regions[0].region_code@ == rows[0].region_code@,
{
    assert forall|i: int|
        0 <= i < region_codes(rows).len() implies #[trigger] region_codes(rows)[i] == region_codes(
        rows,
    )[0] by {
        assert(region_codes(rows)[i] == rows[i].region_code@);
        assert(region_codes(rows)[0] == rows[0].region_code@);
    }
    lemma_dedup_first_single(region_codes(rows));
    assert(regions.map_values(|r: Region| r.region_code@).len() == regions.len());
    assert(regions.map_values(|r: Region| r.region_code@)[0] == regions[0].region_code@);
}

/// A well-formed table records a natural key once, so every row carrying
/// the key resolves to the same surrogate id.
pub proof fn lemma_table_resolves_uniquely(tab: IdTable, i: int, j: int)
    requires
        tab.wf(),
        0 <= i < tab.entries@.len(),
        0 <= j < tab.entries@.len(),
        tab.entries@[i].code@ == tab.entries@[j].code@,
    ensures
        i == j,
        tab.entries@[i].id == tab.entries@[j].id,
{
}

/// A value occurs in the deduplicated sequence exactly when it occurs in
/// the original one.
pub proof fn lemma_dedup_first_contains(codes: Seq<Seq<char>>, c: Seq<char>)
    ensures
        dedup_first(codes).contains(c) <==> codes.contains(c),
    decreases codes.len(),
{
    if codes.len() == 0 {
    } else {
        lemma_dedup_first_contains(codes.drop_last(), c);
        assert(codes.contains(c) <==> (codes.drop_last().contains(c) || codes.last() == c)) by {
            if codes.contains(c) {
                let w = choose|i: int| 0 <= i < codes.len() && codes[i] == c;
                if w < codes.len() - 1 {
                    assert(codes.drop_last()[w] == c);
                }
            }
            if codes.drop_last().contains(c) {
                let w = choose|i: int|
                    0 <= i < codes.drop_last().len() && codes.drop_last()[i] == c;
                assert(codes[w] == c);
            }
        }
        let prefix = dedup_first(codes.drop_last());
        if !prefix.contains(codes.last()) {
            assert forall|x: Seq<char>| prefix.push(codes.last()).contains(x) implies (
            prefix.contains(x) || codes.last() == x) by {
                let w = choose|i: int|
                    0 <= i < prefix.push(codes.last()).len() && prefix.push(codes.last())[i] == x;
                if w < prefix.len() {
                    assert(prefix[w] == x);
                }
            }
            if prefix.contains(c) {
                let w = choose|i: int| 0 <= i < prefix.len() && prefix[i] == c;
                assert(prefix.push(codes.last())[w] == c);
            }
            assert(prefix.push(codes.last()).contains(codes.last())) by {
                assert(prefix.push(codes.last())[prefix.len() as int] == codes.last());
            }
        }
    }
}

} // verus!
