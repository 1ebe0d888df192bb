//! The four-pass importer on concrete extracts: deduplication, parent
//! resolution, first-seen ordering, counts, and the failure on a broken
//! referential chain.

use cr_portal::import::import;
use cr_portal::import::plan_districts;
use cr_portal::import::plan_municipalities;
use cr_portal::import::plan_regions;
use cr_portal::import::FlatRow;
use cr_portal::import::IdEntry;
use cr_portal::import::IdTable;
use cr_portal::import::ImportError;
use cr_portal::import::Level;

fn row(
    muni_name: &str,
    muni_code: &str,
    pou_code: &str,
    orp_name: &str,
    orp_code: &str,
    district_name: &str,
    district_code: &str,
    region_name: &str,
    region_code: &str,
    nuts_code: &str,
) -> FlatRow {
    FlatRow {
        municipality_name: muni_name.to_string(),
        municipality_code: muni_code.to_string(),
        pou_code: pou_code.to_string(),
        orp_name: orp_name.to_string(),
        orp_code: orp_code.to_string(),
        district_name: district_name.to_string(),
        district_code: district_code.to_string(),
        region_name: region_name.to_string(),
        region_code: region_code.to_string(),
        nuts_code: nuts_code.to_string(),
    }
}

#[test]
fn three_rows_shared_hierarchy() {
    // Two municipalities under one office, a third under another office
    // of the same district: 1 region, 1 district, 2 offices, 3
    // municipalities, both offices pointing at the same district.
    let rows = vec![
        row(
            "Adamov", "500001", "1001", "Blansko", "7101", "Blansko", "CZ0641", "Jihomoravský kraj",
            "116", "CZ064",
        ),
        row(
            "Blansko", "500002", "1001", "Blansko", "7101", "Blansko", "CZ0641",
            "Jihomoravský kraj", "116", "CZ064",
        ),
        row(
            "Boskovice", "500003", "1002", "Boskovice", "7102", "Blansko", "CZ0641",
            "Jihomoravský kraj", "116", "CZ064",
        ),
    ];
    let out = import(&rows).expect("import of a consistent extract succeeds");
    let (regions, districts, orps, municipalities) = out.counts();
    assert_eq!(regions, 1);
    assert_eq!(districts, 1);
    assert_eq!(orps, 2);
    assert_eq!(municipalities, 3);
    assert_eq!(out.regions[0].slug, "jihomoravsky-kraj");
    assert_eq!(out.regions[0].id, 1);
    assert_eq!(out.districts[0].region_id, out.regions[0].id);
    assert_eq!(out.orps[0].district_id, out.orps[1].district_id);
    assert_eq!(out.orps[0].district_id, out.districts[0].id);
    assert_eq!(out.orps[0].slug, "blansko");
    assert_eq!(out.orps[1].slug, "boskovice");
    assert_eq!(out.municipalities[0].orp_id, out.orps[0].id);
    assert_eq!(out.municipalities[1].orp_id, out.orps[0].id);
    assert_eq!(out.municipalities[2].orp_id, out.orps[1].id);
    assert_eq!(out.municipalities[0].slug, "adamov");
}

#[test]
fn region_pass_deduplicates_repeated_key() {
    // Five rows repeating one region natural key collapse to one region,
    // and every row's key resolves to its single surrogate id.
    let mut rows = Vec::new();
    for i in 0..5 {
        rows.push(row(
            &format!("Obec {i}"),
            &format!("50000{i}"),
            "1001",
            "Kladno",
            "2109",
            "Kladno",
            "CZ0203",
            "Středočeský kraj",
            "27",
            "CZ020",
        ));
    }
    let (regions, table) = plan_regions(&rows);
    assert_eq!(regions.len(), 1);
    assert_eq!(regions[0].id, 1);
    assert_eq!(regions[0].region_code, "27");
    assert_eq!(regions[0].slug, "stredocesky-kraj");
    for r in &rows {
        assert_eq!(table.id_of(&r.region_code), Some(1));
    }
}

#[test]
fn first_seen_order_assigns_ids() {
    // Insertion order follows first appearance in the input, not any
    // sorted order of names or keys.
    let rows = vec![
        row("B", "1", "p1", "OB", "o9", "DB", "d9", "RB", "r9", "n9"),
        row("A", "2", "p2", "OA", "o1", "DA", "d1", "RA", "r1", "n1"),
        row("C", "3", "p3", "OB", "o9", "DB", "d9", "RB", "r9", "n9"),
    ];
    let out = import(&rows).expect("consistent extract");
    assert_eq!(out.regions.len(), 2);
    assert_eq!(out.regions[0].region_code, "r9");
    assert_eq!(out.regions[0].id, 1);
    assert_eq!(out.regions[1].region_code, "r1");
    assert_eq!(out.regions[1].id, 2);
    assert_eq!(out.orps[0].orp_code, "o9");
    assert_eq!(out.orps[1].orp_code, "o1");
    assert_eq!(out.municipalities.len(), 3);
    assert_eq!(out.municipalities[2].orp_id, out.orps[0].id);
}

#[test]
fn district_pass_rejects_unresolved_region() {
    // A district row whose region key the region table does not resolve
    // is a broken referential chain: the pass fails and yields nothing.
    let rows = vec![row(
        "Adamov", "500001", "1001", "Blansko", "7101", "Blansko", "CZ0641", "Jihomoravský kraj",
        "116", "CZ064",
    )];
    let empty = IdTable { entries: Vec::new() };
    let res = plan_districts(&rows, &empty);
    match res {
        Err(ImportError::MissingParent { level, parent_code }) => {
            assert_eq!(level, Level::District);
            assert_eq!(parent_code, "116");
        }
        _ => panic!("expected a missing-parent failure"),
    }
}

#[test]
fn municipality_pass_rejects_unresolved_office() {
    // The failure arises on the offending row even when earlier rows
    // resolve; the pass returns no partial batch of municipalities.
    let rows = vec![
        row("A", "1", "p1", "OA", "o1", "DA", "d1", "RA", "r1", "n1"),
        row("B", "2", "p2", "OB", "o2", "DA", "d1", "RA", "r1", "n1"),
    ];
    let table = IdTable {
        entries: vec![IdEntry { code: "o1".to_string(), id: 1 }],
    };
    let res = plan_municipalities(&rows, &table);
    match res {
        Err(ImportError::MissingParent { level, parent_code }) => {
            assert_eq!(level, Level::Municipality);
            assert_eq!(parent_code, "o2");
        }
        _ => panic!("expected a missing-parent failure"),
    }
}

#[test]
fn import_of_empty_extract_is_empty() {
    let rows: Vec<FlatRow> = Vec::new();
    let out = import(&rows).expect("empty extract imports");
    assert_eq!(out.counts(), (0, 0, 0, 0));
}

#[test]
fn slugs_and_names_come_from_first_row() {
    // A later row repeating a key with a different display name does not
    // overwrite the record the first row produced.
    let rows = vec![
        row("A", "1", "p1", "Úřad", "o1", "Okres", "d1", "Kraj Vysočina", "r1", "n1"),
        row("B", "2", "p1", "Jinak", "o1", "Jinak", "d1", "Jinak", "r1", "n2"),
    ];
    let out = import(&rows).expect("consistent extract");
    assert_eq!(out.regions.len(), 1);
    assert_eq!(out.regions[0].name, "Kraj Vysočina");
    assert_eq!(out.regions[0].slug, "kraj-vysocina");
    assert_eq!(out.regions[0].nuts_code, "n1");
    assert_eq!(out.orps[0].name, "Úřad");
    assert_eq!(out.orps[0].slug, "urad");
    assert_eq!(out.districts[0].slug, "okres");
    // Municipalities are never deduplicated: one record per row.
    assert_eq!(out.municipalities.len(), 2);
    assert_eq!(out.municipalities[1].name, "B");
}
