use konnect_core::json::{parse_json, Json};
use konnect_core::report::{
    parse_drc_json, parse_drc_section, parse_erc_json, read_drc_report, read_erc_report, ReportPos,
};

fn xy(pos: &ReportPos) -> (f64, f64) {
    (pos.x.as_f64().unwrap(), pos.y.as_f64().unwrap())
}

/// Verbatim shape of a `kicad-cli sch erc --format json` report (KiCAD
/// 10.0.1), reduced to one sheet and one violation. Deliberately carries **no**
/// top-level `violations` key.
fn real_report() -> Json {
    parse_json(
        r#"{
            "$schema": "https://schemas.kicad.org/erc.v1.json",
            "coordinate_units": "mm",
            "date": "2026-08-16T07:41:00+0200",
            "ignored_checks": [],
            "included_severities": ["error", "warning"],
            "kicad_version": "10.0.1",
            "source": "ClearBell_Ausseneinheit.kicad_sch",
            "sheets": [{
                "path": "/",
                "uuid_path": "/a0793de3-2761-4557-8d55-8bdf4486f7f5",
                "violations": [{
                    "description": "Symbol \"LMR33630ADDA\" doesn't match copy in library",
                    "items": [{
                        "description": "Symbol U1 [LMR33630ADDA]",
                        "pos": { "x": 1.3589, "y": 0.9906 },
                        "uuid": "f9f33a6f-a582-4d28-b159-56d4293a0695"
                    }],
                    "severity": "warning",
                    "type": "lib_symbol_mismatch"
                }]
            }]
        }"#,
    )
    .unwrap()
}

#[test]
fn parse_erc_json_reads_violations_nested_under_sheets() {
    let raw = real_report();

    assert!(
        raw.get("violations").is_none(),
        "fixture must not carry a top-level `violations` array"
    );

    let v = parse_erc_json(&raw);
    assert_eq!(v.len(), 1, "the sheets[] violation must be picked up");

    let first = &v[0];
    assert_eq!(first.severity, "warning");
    assert_eq!(first.rule_type, "lib_symbol_mismatch");
    assert!(first.description.contains("LMR33630ADDA"));
    // The sheet name exists only on the enclosing sheets[] entry.
    assert_eq!(first.sheet.as_deref(), Some("/"));
    // Coordinates live in items[], never on the violation itself.
    let pos = first.pos.as_ref().expect("headline pos from the first item");
    assert_eq!(xy(pos), (1.3589, 0.9906));
    assert_eq!(first.items.len(), 1);
    assert_eq!(
        first.items[0].uuid.as_deref(),
        Some("f9f33a6f-a582-4d28-b159-56d4293a0695")
    );
}

#[test]
fn parse_erc_json_attributes_each_violation_to_its_own_sheet() {
    let raw = parse_json(
        r#"{
            "sheets": [
                { "path": "/", "violations": [{ "severity": "error", "description": "root" }] },
                { "path": "/Power/", "violations": [{ "severity": "warning", "description": "sub" }] }
            ]
        }"#,
    )
    .unwrap();

    let v = parse_erc_json(&raw);
    assert_eq!(v.len(), 2);
    assert_eq!(v[0].sheet.as_deref(), Some("/"));
    assert_eq!(v[1].sheet.as_deref(), Some("/Power/"));
    // No items[] at all must not panic and must leave pos empty.
    assert!(v[0].pos.is_none() && v[0].items.is_empty());
}

#[test]
fn parse_erc_json_reports_a_clean_schematic_as_empty() {
    let raw = parse_json(r#"{ "sheets": [{ "path": "/", "violations": [] }] }"#).unwrap();
    assert!(parse_erc_json(&raw).is_empty());
}

#[test]
fn parse_erc_json_still_accepts_a_flat_violations_array() {
    let raw = parse_json(
        r#"{
            "violations": [{
                "severity": "error",
                "description": "flat",
                "type": "pin_not_connected",
                "pos": { "x": 5.0, "y": 6.0 }
            }]
        }"#,
    )
    .unwrap();

    let v = parse_erc_json(&raw);
    assert_eq!(v.len(), 1);
    assert_eq!(v[0].rule_type, "pin_not_connected");
    // Falls back to the violation-level pos when there are no items.
    let pos = v[0].pos.as_ref().expect("violation-level pos fallback");
    assert_eq!(xy(pos), (5.0, 6.0));
}

#[test]
fn parse_drc_section_still_gathers_items_and_headline_pos() {
    let raw = parse_json(
        r#"{
            "violations": [{
                "severity": "error",
                "description": "Clearance violation",
                "type": "clearance",
                "items": [
                    { "description": "Track [GND]", "uuid": "aaa" },
                    { "description": "Pad 2 [VCC]", "pos": { "x": 12.5, "y": 34.0 }, "uuid": "bbb" }
                ]
            }]
        }"#,
    )
    .unwrap();

    let mut out = Vec::new();
    parse_drc_section(&raw, "violations", "rule", "error", &mut out);

    assert_eq!(out.len(), 1);
    assert_eq!(out[0].kind, "rule");
    assert_eq!(out[0].rule_type, "clearance");
    assert_eq!(out[0].items.len(), 2);
    assert!(out[0].items[0].pos.is_none());
    // Headline pos skips the item without coordinates.
    let pos = out[0].pos.as_ref().expect("first item that has a position");
    assert_eq!(xy(pos), (12.5, 34.0));
}

#[test]
fn all_three_drc_sections_are_read_and_tagged() {
    let raw = parse_json(
        r#"{
            "schematic_parity": [{ "description": "p" }],
            "unconnected_items": [{ "description": "u1" }, { "description": "u2", "severity": "warning" }],
            "violations": [{ "description": "v", "type": "clearance" }]
        }"#,
    )
    .unwrap();
    let all = parse_drc_json(&raw);
    let tagged: Vec<(&str, &str)> = all
        .iter()
        .map(|v| (v.kind.as_str(), v.description.as_str()))
        .collect();
    assert_eq!(
        tagged,
        vec![("rule", "v"), ("unconnected", "u1"), ("unconnected", "u2"), ("parity", "p")]
    );
    assert_eq!(all[1].severity, "error");
    assert_eq!(all[2].severity, "warning");
    assert_eq!(all[1].rule_type, "");
}

#[test]
fn integer_positions_are_read_as_floats() {
    let v = read_drc_report(r#"{ "violations": [{ "pos": { "x": 3, "y": -4 } }] }"#).unwrap();
    assert_eq!(xy(v[0].pos.as_ref().unwrap()), (3.0, -4.0));
    // A position with only one number is none.
    let v = read_drc_report(r#"{ "violations": [{ "pos": { "x": 3, "y": "4" } }] }"#).unwrap();
    assert!(v[0].pos.is_none());
}

#[test]
fn reports_that_are_not_json_are_errors() {
    assert!(read_erc_report("{ sheets: [] }").is_err());
    assert!(read_drc_report("").is_err());
    assert_eq!(read_erc_report("{}").unwrap().len(), 0);
    assert_eq!(read_drc_report("[]").unwrap().len(), 0);
}

#[test]
fn violation_keeps_its_own_sheet() {
    let v = read_erc_report(
        r#"{ "sheets": [{ "path": "/a/", "violations": [{ "sheet": "/own/" }, {}] }, { "violations": [{}] }] }"#,
    )
    .unwrap();
    assert_eq!(v[0].sheet.as_deref(), Some("/own/"));
    assert_eq!(v[1].sheet.as_deref(), Some("/a/"));
    assert_eq!(v[2].sheet, None);
    assert_eq!(v[2].severity, "error");
}
