use konnect_core::board_edit::{
    add_copper_pour, add_net, assign_net_to_class, create_netclass, find_net_id, format_zone,
    insert_netclass, net_id_is_readable, NetclassNotFound, NetclassWrite,
};
use konnect_core::json::{parse_json, Json};
use konnect_core::netclass::{project_has_netclasses, upsert_project_netclass, ProjectError};
use konnect_core::netlist::parse_board;
use konnect_core::requests::zone_points;

/// The shape found in a real KiCad 10 project: a single "Default" class plus the
/// surrounding net_settings keys real projects always carry alongside it.
const SAMPLE_PROJECT: &str = r#"{
        "net_settings": {
            "classes": [
                {
                    "name": "Default",
                    "clearance": 0.2,
                    "track_width": 0.2,
                    "via_diameter": 0.6,
                    "via_drill": 0.3,
                    "priority": 2147483647
                }
            ],
            "meta": { "version": 4 },
            "net_colors": null,
            "netclass_assignments": null,
            "netclass_patterns": []
        },
        "board": {
            "design_settings": {
                "rules": {
                    "min_clearance": 0.2,
                    "min_track_width": 0.3
                }
            }
        }
    }"#;

fn json(text: &str) -> Json {
    parse_json(text).unwrap()
}

fn float(j: &Json, key: &str) -> f64 {
    j.get_float(key).unwrap().as_f64().unwrap()
}

fn number(text: &str) -> serde_json::Number {
    text.parse::<f64>()
        .ok()
        .and_then(serde_json::Number::from_f64)
        .unwrap()
}

fn classes(project: &str) -> Vec<Json> {
    let saved = json(project);
    saved
        .get("net_settings")
        .unwrap()
        .get_array("classes")
        .unwrap()
        .iter()
        .map(|c| c.copy())
        .collect()
}

#[test]
fn upsert_updates_existing_class_without_touching_untouched_fields() {
    let args = json(r#"{ "trace_width": 0.3 }"#);
    let u = upsert_project_netclass(SAMPLE_PROJECT, "Default", &args).unwrap();
    assert!(u.updated, "Default already exists, should update not append");
    assert_eq!(float(&u.class, "track_width"), 0.3, "returned class reflects the write");

    let classes = classes(&u.content);
    assert_eq!(classes.len(), 1, "must not duplicate the class");
    let default = &classes[0];
    assert_eq!(float(default, "track_width"), 0.3, "the field we asked to change");
    // Fields NOT passed in `args` must survive untouched — this is the
    // whole point of upsert vs. blindly re-writing tool defaults.
    assert_eq!(float(default, "clearance"), 0.2);
    assert_eq!(float(default, "via_diameter"), 0.6);
    assert_eq!(float(default, "via_drill"), 0.3);
    assert_eq!(default.get_unsigned("priority"), Some(2147483647));
}

#[test]
fn upsert_appends_new_class_with_full_field_set() {
    let args = json(r#"{ "clearance": 0.25, "trace_width": 0.4 }"#);
    let u = upsert_project_netclass(SAMPLE_PROJECT, "Power", &args).unwrap();
    assert!(!u.updated, "Power doesn't exist yet, should append not update");

    let classes = classes(&u.content);
    assert_eq!(classes.len(), 2, "Default must survive alongside the new class");
    let power = classes.iter().find(|c| c.get_str("name") == Some("Power")).unwrap();
    assert_eq!(float(power, "clearance"), 0.25);
    assert_eq!(float(power, "track_width"), 0.4);
    // Omitted fields fall back to this tool's documented defaults.
    assert_eq!(float(power, "via_drill"), 0.4);
    assert_eq!(float(power, "via_diameter"), 0.8);
    assert_eq!(power.get_unsigned("bus_width"), Some(12));
    assert_eq!(power.get_unsigned("wire_width"), Some(6));
    assert_eq!(power.get_unsigned("priority"), Some(2147483647));
    assert_eq!(float(power, "diff_pair_gap"), 0.25);
    assert_eq!(power.get_str("pcb_color"), Some("rgba(0, 0, 0, 0.000)"));
    assert_eq!(power.get_str("tuning_profile"), Some(""));
}

#[test]
fn upsert_errors_cleanly_on_project_without_classes_array() {
    let err = upsert_project_netclass(r#"{"meta": {"version": 4}}"#, "Default", &json("{}"))
        .unwrap_err();
    assert_eq!(err, ProjectError::NoClasses);
    assert!(err.message("board.kicad_pro").contains("net_settings.classes"));
}

#[test]
fn project_has_netclasses_is_false_for_missing_or_malformed_project() {
    assert!(!project_has_netclasses(""));
    assert!(!project_has_netclasses(r#"{"net_settings": {}}"#));
    assert!(!project_has_netclasses(r#"{"net_settings": {"classes": {}}}"#));
    assert!(project_has_netclasses(SAMPLE_PROJECT));
}

#[test]
fn create_netclass_prefers_legacy_block_when_board_actively_uses_one() {
    // (net_class ...) as an unwrapped sibling element, NOT wrapped in a
    // "(net_classes ...)" container.
    let board = "(kicad_pcb (net_class Default \"\" (clearance 0.2)(trace_width 0.2)(via_dia 0.6)(via_drill 0.3)))";
    let args = json(r#"{ "board": "board.kicad_pcb", "name": "Power", "trace_width": 0.4 }"#);
    // The project ALSO has a populated classes array — the legacy block must
    // still win.
    match create_netclass(board, Some(SAMPLE_PROJECT), "Power", &args) {
        Some(NetclassWrite::Board(content)) => {
            assert!(content.contains("\"Power\""), "legacy insert should have run");
            assert_eq!(
                content,
                "(kicad_pcb (net_class Default \"\" (clearance 0.2)(trace_width 0.2)(via_dia 0.6)(via_drill 0.3))\
                 \n      (netclass \"Power\"\n        (clearance 0.2)\n        (trace_width 0.4)\n        \
                 (via_drill 0.4)\n        (via_diameter 0.8)\n      ))"
            );
        }
        other => panic!("expected a board edit, got {:?}", other),
    }
}

#[test]
fn upsert_project_netclass_preserves_key_order_on_write() {
    // "zebra" sorts after "alpha" alphabetically but appears first here — order
    // must survive.
    let project =
        r#"{"net_settings": {"classes": [{"name": "Default", "zebra_field": 1, "alpha_field": 2}]}}"#;
    let raw = upsert_project_netclass(project, "Default", &json(r#"{ "trace_width": 0.3 }"#))
        .unwrap()
        .content;
    let zebra_pos = raw.find("zebra_field").unwrap();
    let alpha_pos = raw.find("alpha_field").unwrap();
    assert!(
        zebra_pos < alpha_pos,
        "original key order (zebra before alpha) must survive the round-trip, got: {raw}"
    );
    assert!(raw.ends_with("}\n"));
    assert!(raw.starts_with("{\n  \"net_settings\": {\n    \"classes\": [\n"));
}

#[test]
fn create_netclass_response_reflects_actual_values_not_tool_defaults() {
    // Default class already tuned away from the generic defaults
    // (0.2/0.25/0.4/0.8) on every field but trace_width.
    let project = r#"{"net_settings": {"classes": [
                {"name": "Default", "clearance": 0.15, "track_width": 0.2, "via_drill": 0.3, "via_diameter": 0.6}
            ]}}"#;
    let args = json(r#"{ "board": "board.kicad_pcb", "name": "Default", "trace_width": 0.3 }"#);
    match create_netclass("(kicad_pcb (setup))", Some(project), "Default", &args) {
        Some(NetclassWrite::Project(u)) => {
            assert_eq!(float(&u.class, "track_width"), 0.3, "the field we asked to change");
            // Untouched fields must report the REAL value (0.15/0.3/0.6), not
            // generic defaults (0.2/0.4/0.8).
            assert_eq!(float(&u.class, "clearance"), 0.15);
            assert_eq!(float(&u.class, "via_drill"), 0.3);
            assert_eq!(float(&u.class, "via_diameter"), 0.6);
        }
        other => panic!("expected a project edit, got {:?}", other),
    }
}

#[test]
fn malformed_project_is_an_error_for_upsert() {
    let err = upsert_project_netclass("{", "Default", &json("{}")).unwrap_err();
    assert_eq!(err, ProjectError::Malformed);
    assert_eq!(err.message("p"), "project file is not a JSON document: p");
}

#[test]
fn upserting_twice_changes_nothing_more() {
    let args = json(r#"{ "via_drill": 1 }"#);
    let once = upsert_project_netclass(SAMPLE_PROJECT, "Power", &args).unwrap();
    assert!(!once.updated);
    let twice = upsert_project_netclass(&once.content, "Power", &args).unwrap();
    assert!(twice.updated);
    assert_eq!(twice.content, once.content);
    // An integer argument is stored as a float.
    assert!(once.content.contains("\"via_drill\": 1.0"));
}

#[test]
fn rest_of_the_project_survives_an_upsert() {
    let u = upsert_project_netclass(SAMPLE_PROJECT, "Power", &json("{}")).unwrap();
    let saved = json(&u.content);
    let settings = saved.get("net_settings").unwrap();
    assert_eq!(settings.get("meta").unwrap().get_unsigned("version"), Some(4));
    assert!(matches!(settings.get("net_colors"), Some(Json::Null)));
    let rules = saved.get("board").unwrap().get("design_settings").unwrap().get("rules").unwrap();
    assert_eq!(float(rules, "min_track_width"), 0.3);
}

#[test]
fn netclass_goes_to_the_board_without_a_project() {
    let args = json("{}");
    match create_netclass("(kicad_pcb)", None, "N", &args) {
        Some(NetclassWrite::Board(t)) => assert!(t.starts_with("(kicad_pcb\n      (netclass \"N\"")),
        other => panic!("expected a board edit, got {:?}", other),
    }
    // A project without classes does not take it either.
    assert!(matches!(
        create_netclass("(kicad_pcb)", Some("{}"), "N", &args),
        Some(NetclassWrite::Board(_))
    ));
    // The list of netclasses is the place, where there is one.
    let t = insert_netclass("(k (net_classes\n    )\n)", "N", &args);
    assert!(t.starts_with("(k (net_classes\n      (netclass \"N\""));
    assert!(t.ends_with("\n    )\n)"));
    let t = insert_netclass("(k (net_classes (a)) (b))", "N", &args);
    assert!(t.starts_with("(k (net_classes (a\n      (netclass"));
    // A list that is never closed ends before the last character, if it is one byte.
    let t = insert_netclass("(net_classes x", "N", &args);
    assert!(t.ends_with("x") && t.starts_with("(net_classes \n"));
    assert!(create_netclass("(net_classes é", None, "N", &args).is_none());
}

#[test]
fn nets_are_assigned_to_a_netclass_once() {
    let board = "(k (netclass \"Power\" (clearance 0.2)) (x))";
    let once = assign_net_to_class(board, "Net-(U2-IO32)", "Power").unwrap().unwrap();
    assert_eq!(
        once,
        "(k (netclass \"Power\" (clearance 0.2)\n        (net \"Net-(U2-IO32)\")) (x))"
    );
    assert_eq!(assign_net_to_class(&once, "Net-(U2-IO32)", "Power"), Ok(None));
    let err = assign_net_to_class(board, "GND", "Signal").unwrap_err();
    assert_eq!(err, NetclassNotFound);
    assert_eq!(err.message("Signal"), "Netclass 'Signal' not found in board file");
    // A netclass that is never closed takes the net in front of it.
    assert_eq!(
        assign_net_to_class("x (netclass \"P\"", "GND", "P"),
        Ok(Some("x \n        (net \"GND\")(netclass \"P\"".to_string()))
    );
}

#[test]
fn nets_are_added_before_the_last_parenthesis() {
    let (id, content) = add_net("(kicad_pcb (net 0 \"\") (net 1 \"GND\"))\n", "VCC");
    assert_eq!(id, 2);
    assert_eq!(content, "(kicad_pcb (net 0 \"\") (net 1 \"GND\")\n  (net 2 \"VCC\"))\n");
    assert_eq!(add_net("", "A"), (0, "\n  (net 0 \"A\")".to_string()));
    // The net is in the table of the new board.
    let board = parse_board(&content).unwrap();
    assert!(board.uses_codes);
    assert!(board.net_table.iter().any(|n| n == "VCC"));
    assert!(board.net_table.iter().any(|n| n == "GND"));
}

#[test]
fn nets_are_found_under_the_code_that_the_board_declares() {
    let board = "(k (title \"VCC\") (net 0 \"\") (net 7 \"GND\") (net 2 \"VCC\") (net 9 \"VCC\"))";
    assert_eq!(find_net_id(board, "GND"), 7);
    assert_eq!(find_net_id(board, "VCC"), 2);
    assert_eq!(find_net_id(board, "V"), 0);
    assert_eq!(find_net_id("(k (net 7  \"GND\"))", "GND"), 7);
    assert_eq!(find_net_id("(k (net -7 \"GND\"))", "GND"), -7);
    // Nets that are declared by name only, or under something other than a number, have none.
    assert_eq!(find_net_id("(k (net \"GND\"))", "GND"), 0);
    assert_eq!(find_net_id("(k (net x \"GND\"))", "GND"), 0);
    assert_eq!(find_net_id("(k)", "GND"), 0);
    // A net that is not declared has the code of its first mention, also in a text that is not
    // one expression.
    for mention in ["(net 7 \"GND\")", "(net 7  \"GND\")", "(net 7 x \"GND\")"] {
        assert_eq!(find_net_id(&format!("(k (pad \"1\" {mention}))"), "GND"), 7);
        assert_eq!(find_net_id(&format!("(k (pad \"1\" {mention}"), "GND"), 7);
    }
    assert_eq!(find_net_id("(k (net -7 x \"GND\"))", "GND"), -7);
    // Without a net entry the number is looked for five bytes into the file.
    assert_eq!(find_net_id("(foo 12 x \"GND\")", "GND"), 12);
    assert_eq!(find_net_id("(foo 12 \"GND\")", "GND"), 0);
    assert!(!net_id_is_readable("(a \"GND\")", "GND"));
    assert!(!net_id_is_readable("(fooé 12 \"GND\")", "GND"));
    assert!(net_id_is_readable("(foé 12 \"GND\")", "GND"));
    assert!(net_id_is_readable("(a (net 1 \"GND\"))", "GND"));
    // A net that was added is found under its number.
    let (id, content) = add_net(board, "NEW");
    assert_eq!(find_net_id(&content, "NEW"), id);
}

#[test]
fn zones_are_on_the_net_that_the_board_declares() {
    let board = "(kicad_pcb (net 0 \"\") (net 2 \"VCC\"))";
    let pts =
        vec![(number("0"), number("0")), (number("1"), number("0")), (number("1"), number("1"))];
    let content =
        add_copper_pour(board, "VCC", "F.Cu", &number("0.2"), &number("0.25"), &pts, "u");
    assert_eq!(
        content,
        "(kicad_pcb (net 0 \"\") (net 2 \"VCC\")\n  (zone (net 2) (net_name \"VCC\") (layer \"F.Cu\") (uuid \"u\")\n    (hatch edge 0.508)\n    (connect_pads (clearance 0.2))\n    (min_thickness 0.25)\n    (fill yes)\n    (polygon (pts\n      (xy 0 0)\n      (xy 1 0)\n      (xy 1 1)\n    ))\n  ))"
    );
}

#[test]
fn zones_are_written_with_their_corners() {
    let pts = vec![
        (number("0"), number("0")),
        (number("10"), number("0")),
        (number("10"), number("2.5")),
    ];
    assert_eq!(
        format_zone(3, "GND", "F.Cu", &number("0.2"), &number("0.25"), &pts, "id"),
        "\n  (zone (net 3) (net_name \"GND\") (layer \"F.Cu\") (uuid \"id\")\n    (hatch edge 0.508)\n    (connect_pads (clearance 0.2))\n    (min_thickness 0.25)\n    (fill yes)\n    (polygon (pts\n      (xy 0 0)\n      (xy 10 0)\n      (xy 10 2.5)\n    ))\n  )"
    );
    let content = add_copper_pour(
        "(k (net 4  \"GND\"))",
        "GND",
        "B.Cu",
        &number("1"),
        &number("2"),
        &pts,
        "u",
    );
    assert!(content.starts_with("(k (net 4  \"GND\")\n  (zone (net 4) (net_name \"GND\") (layer \"B.Cu\")"));
    assert!(content.ends_with("\n    ))\n  ))"));
}

#[test]
fn zone_corners_are_the_points_with_two_numbers() {
    let args = json(
        r#"{ "points": [{"x": 1, "y": 2}, {"x": 3}, {"x": 4, "y": 5}, {"x": 6.5, "y": 7}] }"#,
    );
    let pts = zone_points(&args).unwrap();
    let xs: Vec<f64> = pts.iter().map(|p| p.0.as_f64().unwrap()).collect();
    assert_eq!(xs, vec![1.0, 4.0, 6.5]);
    let err = zone_points(&json(r#"{ "points": [] }"#)).unwrap_err();
    assert_eq!(err.message(), "Zone requires at least 3 points");
    let err = zone_points(&json("{}")).unwrap_err();
    assert_eq!(err.message(), "Missing 'points' array");
}
