use konnect_core::pads::{
    all_pads, find_pad_board_position, get_component_pads, get_pad_position, PadLookupError,
    PadRecord,
};
use konnect_core::ratsnest::{resolve_pad_at, unrouted_connections};
use konnect_core::report::read_drc_report;
use konnect_core::sexp::parse_sexp;

const SAMPLE: &str = r#"
    (kicad_pcb
      (footprint "R" (layer "F.Cu") (uuid "f1")
        (at 10 20 0)
        (property "Reference" "R1" (at 0 0 0))
        (pad "1" smd rect (at -1 0) (size 1 1) (layers "F.Cu") (net "GND"))
        (pad "2" smd rect (at 1 0) (size 1 1) (layers "F.Cu") (net "VCC"))
      )
      (footprint "C" (layer "F.Cu") (uuid "f2")
        (at 15 20 90)
        (property "Reference" "C1" (at 0 0 0))
        (pad "1" thru_hole circle (at 0 -1) (size 1 1) (drill 0.5) (layers "*.Cu") (net "GND"))
      )
    )
    "#;

fn number(t: &str) -> f64 {
    t.parse().unwrap()
}

/// KiCad's rotation is clockwise-positive, with the y axis pointing down.
fn board_xy(p: &PadRecord) -> (f64, f64) {
    let rad = number(&p.placement.rotation).to_radians();
    let (x, y) = (number(&p.x), number(&p.y));
    (
        number(&p.placement.x) + x * rad.cos() + y * rad.sin(),
        number(&p.placement.y) - x * rad.sin() + y * rad.cos(),
    )
}

const POS_EPSILON_MM: f64 = 0.001;

fn pad_at(pads: &[PadRecord], x: f64, y: f64) -> Option<usize> {
    let distances: Vec<Option<u64>> = pads
        .iter()
        .map(|p| {
            let (px, py) = board_xy(p);
            if (px - x).abs() < POS_EPSILON_MM && (py - y).abs() < POS_EPSILON_MM {
                Some(((px - x).powi(2) + (py - y).powi(2)).to_bits())
            } else {
                None
            }
        })
        .collect();
    resolve_pad_at(&distances)
}

#[test]
fn all_pads_resolves_reference_net_type_and_rotation() {
    let tree = parse_sexp(SAMPLE).unwrap();
    let pads = all_pads(&tree);
    assert_eq!(pads.len(), 3);

    let r1_pad1 = pads
        .iter()
        .find(|p| p.reference == "R1" && p.pad_number == "1")
        .unwrap();
    assert_eq!(r1_pad1.net, "GND");
    assert!(!r1_pad1.through_hole);
    let (x, y) = board_xy(r1_pad1);
    assert!((x - 9.0).abs() < 1e-9); // 10 + (-1) at 0deg rotation
    assert!((y - 20.0).abs() < 1e-9);

    let c1_pad1 = pads.iter().find(|p| p.reference == "C1").unwrap();
    assert!(c1_pad1.through_hole);
    assert_eq!(c1_pad1.net, "GND");
    // 90deg footprint rotation (clockwise-positive) of local (0, -1) around (15, 20):
    // x = 15 + 0*cos90 + (-1)*sin90 = 14, y = 20 - 0*sin90 + (-1)*cos90 = 20
    let (x, y) = board_xy(c1_pad1);
    assert!((x - 14.0).abs() < 1e-9);
    assert!((y - 20.0).abs() < 1e-9);
}

#[test]
fn resolve_pad_at_matches_within_epsilon_and_rejects_far_points() {
    let tree = parse_sexp(SAMPLE).unwrap();
    let pads = all_pads(&tree);
    let r1_pad2 = pads
        .iter()
        .find(|p| p.reference == "R1" && p.pad_number == "2")
        .unwrap();
    let (x, y) = board_xy(r1_pad2);

    let hit = pad_at(&pads, x + 0.0002, y - 0.0002);
    assert_eq!(
        hit.map(|i| (pads[i].reference.as_str(), pads[i].pad_number.as_str())),
        Some(("R1", "2"))
    );

    assert!(pad_at(&pads, 999.0, 999.0).is_none());
}

#[test]
fn resolve_pad_at_picks_nearest_on_near_coincident_pads() {
    // Two pads 0.0005mm apart (below epsilon from either), a probe closer
    // to one than the other must resolve to the nearer one, not the first.
    let sample = r#"
        (kicad_pcb
          (footprint "A" (layer "F.Cu") (uuid "f1")
            (at 0 0 0)
            (property "Reference" "A1" (at 0 0 0))
            (pad "1" smd rect (at 0 0) (size 1 1) (layers "F.Cu") (net "N1"))
          )
          (footprint "B" (layer "F.Cu") (uuid "f2")
            (at 0.0005 0 0)
            (property "Reference" "B1" (at 0 0 0))
            (pad "1" smd rect (at 0 0) (size 1 1) (layers "F.Cu") (net "N1"))
          )
        )
        "#;
    let tree = parse_sexp(sample).unwrap();
    let pads = all_pads(&tree);
    // 0.0001mm from A1 (at x=0), 0.0004mm from B1 (at x=0.0005) — nearer to A1.
    let hit = pad_at(&pads, 0.0001, 0.0);
    assert_eq!(hit.map(|i| pads[i].reference.as_str()), Some("A1"));
    // And the other way round.
    let hit = pad_at(&pads, 0.0004, 0.0);
    assert_eq!(hit.map(|i| pads[i].reference.as_str()), Some("B1"));
}

/// A real -90°-rotated two-pad resistor footprint whose pad 2 board position was
/// independently confirmed via a live kicad-cli DRC report (148.35, 116.0125).
#[test]
fn all_pads_matches_live_drc_confirmed_rotated_footprint() {
    let sample = r#"
        (kicad_pcb
          (footprint "Resistor_SMD:R_0603" (layer "F.Cu") (uuid "f1")
            (at 148.35 115.1 -90)
            (property "Reference" "R_TOUCH1" (at 0 0 0))
            (pad "1" smd roundrect (at -0.9125 0 270) (size 0.975 0.95)
              (layers "F.Cu") (net "Net-(U2-IO32)"))
            (pad "2" smd roundrect (at 0.9125 0 270) (size 0.975 0.95)
              (layers "F.Cu") (net "Net-(J_TOUCH1-Pin_1)"))
          )
        )
        "#;
    let tree = parse_sexp(sample).unwrap();
    let pads = all_pads(&tree);

    let pad2 = pads
        .iter()
        .find(|p| p.reference == "R_TOUCH1" && p.pad_number == "2")
        .unwrap();
    let (x, y) = board_xy(pad2);
    assert!((x - 148.35).abs() < 1e-9);
    assert!((y - 116.0125).abs() < 1e-9);
    assert_eq!(pad2.net, "Net-(J_TOUCH1-Pin_1)");

    let pad1 = pads
        .iter()
        .find(|p| p.reference == "R_TOUCH1" && p.pad_number == "1")
        .unwrap();
    let (x, y) = board_xy(pad1);
    assert!((x - 148.35).abs() < 1e-9);
    assert!((y - 114.1875).abs() < 1e-9);
}

#[test]
fn first_of_equally_near_pads_is_taken() {
    assert_eq!(resolve_pad_at(&vec![None, Some(7), Some(3), Some(3)]), Some(2));
    assert_eq!(resolve_pad_at(&vec![None, None]), None);
    assert_eq!(resolve_pad_at(&vec![]), None);
}

#[test]
fn component_pads_read_name_only_and_coded_nets() {
    let tree = parse_sexp(
        r#"(kicad_pcb (footprint "F" (at 1 2)
             (property "Reference" "U1")
             (pad "1" smd (at 0 0) (net "GND"))
             (pad "2" smd (at 1 0) (net 3 "VCC"))
             (pad "3" smd (at 1 oops) (net "X"))
             (pad "4" smd (net "X"))
             (pad "5" np_thru_hole (at 2 0))))"#,
    )
    .unwrap();
    let pads = get_component_pads(&tree, "U1").unwrap();
    let seen: Vec<(&str, &str)> = pads
        .iter()
        .map(|p| (p.pad_number.as_str(), p.net.as_str()))
        .collect();
    assert_eq!(seen, vec![("1", "GND"), ("2", "VCC"), ("5", "")]);
    assert_eq!(pads[0].placement.rotation, "0");
    assert!(pads[2].through_hole);
    assert_eq!(get_pad_position(&pads, "2").map(|p| p.x.as_str()), Some("1"));
    assert!(get_pad_position(&pads, "3").is_none());
    assert!(get_component_pads(&tree, "U2").is_none());
    // The whole board lists a pad whose position is not a number, at zero.
    let all = all_pads(&tree);
    assert_eq!(all.len(), 4);
    assert_eq!(all[2].y, "0");
    // Each pad of the board is found by its reference and number.
    for pad in &all {
        let found = find_pad_board_position(&tree, &pad.reference, &pad.pad_number).unwrap();
        assert_eq!(&found, pad);
    }
}

#[test]
fn pad_lookup_tells_what_is_missing() {
    let tree = parse_sexp(
        r#"(kicad_pcb (footprint "F" (at 1 2 180) (property "Reference" "U1")
             (pad "1" smd (at 0.5 -0.5)) (pad "2" smd)))"#,
    )
    .unwrap();
    let p = find_pad_board_position(&tree, "U1", "1").unwrap();
    assert_eq!((p.x.as_str(), p.y.as_str()), ("0.5", "-0.5"));
    assert_eq!(p.placement.rotation, "180");
    assert!(all_pads(&tree).contains(&p));
    let e = find_pad_board_position(&tree, "U2", "1").unwrap_err();
    assert_eq!(e, PadLookupError::FootprintNotFound);
    assert_eq!(e.message("U2", "1"), "Footprint 'U2' not found on board");
    let e = find_pad_board_position(&tree, "U1", "9").unwrap_err();
    assert_eq!(e, PadLookupError::PadNotFound);
    assert_eq!(e.message("U1", "9"), "Pad '9' not found on 'U1'");
    let e = find_pad_board_position(&tree, "U1", "2").unwrap_err();
    assert_eq!(e, PadLookupError::NoPosition);
    assert_eq!(e.message("U1", "2"), "Pad has no (at) node");
}

#[test]
fn missing_connections_are_resolved_filtered_and_summed_up() {
    let tree = parse_sexp(SAMPLE).unwrap();
    let pads = all_pads(&tree);
    let violations = read_drc_report(
        r#"{
            "violations": [{ "items": [{ "pos": { "x": 9, "y": 20 } }] }],
            "unconnected_items": [
                { "items": [{ "pos": { "x": 9, "y": 20 } }, { "pos": { "x": 14, "y": 20 } }] },
                { "items": [{ "pos": { "x": 11, "y": 20 } }, { "description": "Track" }] },
                { "items": [{ "description": "Track" }] }
            ]
        }"#,
    )
    .unwrap();
    let hits: Vec<Vec<Option<usize>>> = violations
        .iter()
        .map(|v| {
            v.items
                .iter()
                .map(|i| {
                    i.pos.as_ref().and_then(|p| {
                        pad_at(&pads, p.x.as_f64().unwrap(), p.y.as_f64().unwrap())
                    })
                })
                .collect()
        })
        .collect();

    let all = unrouted_connections(&violations, &hits, &pads, &None);
    assert_eq!(all.connections.len(), 3);
    assert_eq!(all.nets_affected, vec!["GND", "VCC"]);
    assert_eq!(all.connections[0].violation, 1);
    assert_eq!(all.connections[0].net, "GND");
    assert_eq!(all.connections[0].span, Some((0, 2)));
    assert_eq!(all.connections[1].endpoints, vec![Some(1), None]);
    assert_eq!(all.connections[1].span, None);
    assert_eq!(all.connections[2].net, "");

    let gnd = unrouted_connections(&violations, &hits, &pads, &Some(vec!["GND".to_string()]));
    let nets: Vec<&str> = gnd.connections.iter().map(|c| c.net.as_str()).collect();
    assert_eq!(nets, vec!["GND"]);
    assert_eq!(gnd.nets_affected, vec!["GND"]);
    let none = unrouted_connections(&violations, &hits, &pads, &Some(Vec::new()));
    assert!(none.connections.is_empty() && none.nets_affected.is_empty());
}
