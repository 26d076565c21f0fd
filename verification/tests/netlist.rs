use konnect_core::netlist::{parse_board, parse_netlist, BoardModel, Netlist};
use konnect_core::plan::{plan, Plan};

const NETLIST: &str = r#"(export (version "E")
      (components
        (comp (ref "R1") (value "10k") (footprint "Resistor_SMD:R_0402"))
        (comp (ref "C1") (value "100n") (footprint "Capacitor_SMD:C_0402"))
        (comp (ref "U9") (value "NEW") (footprint "Package:SOT-23")))
      (nets
        (net (code "1") (name "GND")
          (node (ref "R1") (pin "2"))
          (node (ref "C1") (pin "2")))
        (net (code "2") (name "VCC")
          (node (ref "R1") (pin "1"))
          (node (ref "C1") (pin "1")))))"#;

// Name-only board: R1 pad2 net is stale (VCC, should be GND); C1 value is
// stale (1u vs 100n). X1 is on the board but not in the schematic.
const BOARD: &str = r#"(kicad_pcb
      (footprint "Resistor_SMD:R_0402"
        (property "Reference" "R1")
        (property "Value" "10k")
        (pad "1" smd roundrect (at 0 0) (net "VCC"))
        (pad "2" smd roundrect (at 1 0) (net "VCC")))
      (footprint "Capacitor_SMD:C_0402"
        (property "Reference" "C1")
        (property "Value" "1u")
        (pad "1" smd roundrect (at 0 0) (net "VCC"))
        (pad "2" smd roundrect (at 1 0) (net "GND")))
      (footprint "Connector:Screw"
        (property "Reference" "X1")
        (property "Value" "CONN")
        (pad "1" thru_hole circle (at 0 0) (net "GND"))))"#;

#[test]
fn parse_netlist_extracts_comps_and_pad_nets() {
    let nl = parse_netlist(NETLIST).unwrap();
    assert_eq!(nl.comps.len(), 3);
    assert_eq!(
        nl.pad_nets
            .get(&("R1".into(), "2".into()))
            .map(String::as_str),
        Some("GND")
    );
    assert_eq!(
        nl.pad_nets
            .get(&("C1".into(), "1".into()))
            .map(String::as_str),
        Some("VCC")
    );
    assert_eq!(nl.net_names, vec!["GND", "VCC"]);
}

#[test]
fn parse_board_reads_name_only_pad_nets() {
    let b = parse_board(BOARD).unwrap();
    assert!(!b.uses_codes);
    assert!(b.net_table.is_empty());
    let r1 = b.fps.iter().find(|f| f.reference == "R1").unwrap();
    assert_eq!(r1.value, "10k");
    let p2 = r1.pads.iter().find(|p| p.number == "2").unwrap();
    assert_eq!(p2.net.as_deref(), Some("VCC"));
}

#[test]
fn plan_finds_stale_pad_net_and_value() {
    let nl = parse_netlist(NETLIST).unwrap();
    let b = parse_board(BOARD).unwrap();
    let p = plan(&nl, &b);

    // R1/pad2 must move VCC → GND. C1 pads already correct.
    assert_eq!(p.pad_net_changes.len(), 1);
    let ch = &p.pad_net_changes[0];
    assert_eq!((ch.reference.as_str(), ch.pad.as_str()), ("R1", "2"));
    assert_eq!(ch.old.as_deref(), Some("VCC"));
    assert_eq!(ch.new, "GND");

    // C1 value 1u → 100n.
    assert_eq!(p.value_changes.len(), 1);
    assert_eq!(p.value_changes[0].reference, "C1");
    assert_eq!(p.value_changes[0].new, "100n");

    // U9 is only in the schematic; X1 only on the board.
    assert_eq!(p.missing_on_board, vec!["U9"]);
    assert_eq!(p.extra_on_board, vec!["X1"]);

    // Name-only board needs no net-table additions.
    assert!(p.nets_to_add.is_empty());
}

#[test]
fn plan_reports_footprint_mismatch() {
    let nl = parse_netlist(
        r#"(export (components (comp (ref "R1") (value "10k") (footprint "Resistor_SMD:R_0603")))
               (nets))"#,
    )
    .unwrap();
    let b = parse_board(
        r#"(kicad_pcb (footprint "Resistor_SMD:R_0402"
                 (property "Reference" "R1") (property "Value" "10k")
                 (pad "1" smd (at 0 0) (net "N"))))"#,
    )
    .unwrap();
    let p = plan(&nl, &b);
    assert_eq!(p.footprint_mismatches.len(), 1);
    assert_eq!(p.footprint_mismatches[0].1, "Resistor_SMD:R_0402");
    assert_eq!(p.footprint_mismatches[0].2, "Resistor_SMD:R_0603");
}

#[test]
fn plan_never_syncs_to_unconnected_nets() {
    // Netlist collapses two no-connect pads onto one `unconnected-*` name;
    // the board has KiCad's unique per-pad names. plan() must leave both.
    let nl = parse_netlist(
        r#"(export (components (comp (ref "U1") (value "IC") (footprint "F")))
               (nets (net (code "1") (name "unconnected-(U1-NC-Pad3)")
                        (node (ref "U1") (pin "3"))
                        (node (ref "U1") (pin "4")))))"#,
    )
    .unwrap();
    let b = parse_board(
        r#"(kicad_pcb (footprint "F"
                 (property "Reference" "U1") (property "Value" "IC")
                 (pad "3" smd (at 0 0) (net "unconnected-(U1-NC-Pad3)_1"))
                 (pad "4" smd (at 1 0) (net "unconnected-(U1-NC-Pad3)_2"))))"#,
    )
    .unwrap();
    let p = plan(&nl, &b);
    assert!(
        p.pad_net_changes.is_empty(),
        "must not rewrite pads onto a collapsed unconnected-* net"
    );
}

#[test]
fn plan_adds_missing_net_on_coded_board() {
    let nl = parse_netlist(
        r#"(export (components (comp (ref "R1") (value "10k") (footprint "F")))
               (nets (net (code "1") (name "NEWNET") (node (ref "R1") (pin "1")))))"#,
    )
    .unwrap();
    // Coded board: has a net table (net 1 "GND"), pad currently on GND.
    let b = parse_board(
        r#"(kicad_pcb (net 0 "") (net 1 "GND")
                 (footprint "F" (property "Reference" "R1") (property "Value" "10k")
                   (pad "1" smd (at 0 0) (net 1 "GND"))))"#,
    )
    .unwrap();
    assert!(b.uses_codes);
    let p = plan(&nl, &b);
    assert_eq!(p.pad_net_changes.len(), 1);
    assert_eq!(p.nets_to_add, vec!["NEWNET"]);
}

#[test]
fn net_table_is_sorted_and_holds_each_name_once() {
    let b = parse_board(
        r#"(kicad_pcb (net 0 "") (net 2 "VCC") (net 1 "GND") (net 3 "VCC"))"#,
    )
    .unwrap();
    assert!(b.uses_codes);
    assert_eq!(b.net_table, vec!["", "GND", "VCC"]);
}

#[test]
fn later_declaration_of_a_pad_or_component_wins() {
    let nl = parse_netlist(
        r#"(export
             (components (comp (ref "R1") (value "1k") (footprint "F"))
                         (comp (ref "R1") (value "2k") (footprint "F"))
                         (comp (value "no reference")))
             (nets (net (name "A") (node (ref "R1") (pin "1")))
                   (net (name "B") (node (ref "R1") (pin "1")))))"#,
    )
    .unwrap();
    assert_eq!(nl.comps.len(), 2);
    assert_eq!(
        nl.pad_nets.get(&("R1".into(), "1".into())).map(String::as_str),
        Some("B")
    );
    let b = parse_board(
        r#"(kicad_pcb (footprint "F" (property "Reference" "R1") (property "Value" "2k")
             (pad "1" smd (net "B"))))"#,
    )
    .unwrap();
    assert!(plan(&nl, &b).is_empty());
}

#[test]
fn malformed_files_are_refused() {
    assert!(parse_netlist("(export (components").is_err());
    assert!(parse_board("(kicad_pcb) (kicad_pcb)").is_err());
    assert!(parse_board("").is_err());
}

#[test]
fn pads_without_a_schematic_node_are_reported_and_left() {
    let nl = parse_netlist(
        r#"(export (components (comp (ref "U1") (value "IC") (footprint "F"))) (nets))"#,
    )
    .unwrap();
    let b = parse_board(
        r#"(kicad_pcb (footprint "F" (property "Reference" "U1") (property "Value" "IC")
             (pad "1" smd (net "N")) (pad "2" smd (net "")) (pad "3" smd)))"#,
    )
    .unwrap();
    let p = plan(&nl, &b);
    assert!(p.is_empty());
    assert_eq!(p.unmatched_board_pads, vec![("U1".to_string(), "1".to_string())]);
}

#[test]
fn second_pass_over_a_synced_board_is_empty() {
    let nl = parse_netlist(NETLIST).unwrap();
    let mut b = parse_board(BOARD).unwrap();
    let first: Plan = plan(&nl, &b);
    assert!(!first.is_empty());
    for fp in b.fps.iter_mut() {
        for ch in first.value_changes.iter().filter(|c| c.reference == fp.reference) {
            fp.value = ch.new.clone();
        }
        for pad in fp.pads.iter_mut() {
            for ch in first
                .pad_net_changes
                .iter()
                .filter(|c| c.reference == fp.reference && c.pad == pad.number)
            {
                pad.net = Some(ch.new.clone());
            }
        }
    }
    let second = plan(&nl, &b);
    assert!(second.is_empty());
    assert_eq!(second.missing_on_board, first.missing_on_board);
    assert_eq!(second.extra_on_board, first.extra_on_board);
}

#[test]
fn nets_to_add_come_once_and_in_first_seen_order() {
    let nl = parse_netlist(
        r#"(export (components (comp (ref "U1") (value "IC") (footprint "F")))
             (nets (net (name "ZZ") (node (ref "U1") (pin "1")) (node (ref "U1") (pin "3")))
                   (net (name "AA") (node (ref "U1") (pin "2")))))"#,
    )
    .unwrap();
    let b = parse_board(
        r#"(kicad_pcb (net 0 "") (footprint "F" (property "Reference" "U1") (property "Value" "IC")
             (pad "1" smd (net 0 "")) (pad "2" smd (net 0 "")) (pad "3" smd (net 0 ""))))"#,
    )
    .unwrap();
    let p = plan(&nl, &b);
    assert_eq!(p.pad_net_changes.len(), 3);
    assert_eq!(p.nets_to_add, vec!["ZZ", "AA"]);
}

#[test]
fn default_plan_has_nothing_to_apply() {
    assert!(Plan::default().is_empty());
}

#[test]
fn nothing_is_to_do_for_an_empty_netlist_and_board() {
    let (nl, board) = (Netlist::default(), BoardModel::default());
    assert!(nl.comps.is_empty() && nl.net_names.is_empty());
    assert!(board.fps.is_empty() && board.net_table.is_empty() && !board.uses_codes);
    assert!(plan(&nl, &board).is_empty());
}
