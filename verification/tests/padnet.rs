use konnect_core::padnet::{set_pad_net, PadNetEdit, PadNetError};
use konnect_core::netlist::parse_board;

const CODED: &str = r#"(kicad_pcb (net 0 "") (net 1 "GND") (net 2 "VCC")
  (footprint "F" (property "Reference" "U10") (pad "1" smd (net 1 "GND")))
  (footprint "F" (property "Reference" "U1")
    (pad "10" smd (net 1 "GND"))
    (pad "1" smd (net 1 "GND"))
    (pad "2" smd)))
"#;

const NAMED: &str = r#"(kicad_pcb
  (footprint "F" (property "Reference" "U1") (pad "1" smd (net "A (b)")) (pad "2" smd)))
"#;

fn rewritten(r: Result<PadNetEdit, PadNetError>) -> (String, Option<String>, Option<String>) {
    match r.unwrap() {
        PadNetEdit::Rewritten { content, net_code, old_net } => (content, net_code, old_net),
        PadNetEdit::Unchanged => panic!("expected a rewritten board"),
    }
}

#[test]
fn coded_entry_stays_coded() {
    let (content, code, old) = rewritten(set_pad_net(CODED, "U1", "1", "VCC"));
    assert_eq!(
        content,
        CODED.replacen("(pad \"1\" smd (net 1 \"GND\"))\n", "(pad \"1\" smd (net 2 \"VCC\"))\n", 1)
    );
    assert_eq!(code.as_deref(), Some("2"));
    assert_eq!(old.as_deref(), Some("(net 1 \"GND\")"));
    // Only the one pad is on another net.
    let board = parse_board(&content).unwrap();
    let nets: Vec<Option<&str>> = board.fps[1].pads.iter().map(|p| p.net.as_deref()).collect();
    assert_eq!(nets, vec![Some("GND"), Some("VCC"), None]);
    assert_eq!(board.fps[0].pads[0].net.as_deref(), Some("GND"));
}

#[test]
fn name_only_entry_stays_name_only() {
    let (content, code, old) = rewritten(set_pad_net(NAMED, "U1", "1", "NEW"));
    assert_eq!(content, NAMED.replace("(net \"A (b)\")", "(net \"NEW\")"));
    assert_eq!(code, None);
    assert_eq!(old.as_deref(), Some("(net \"A (b)\")"));
}

#[test]
fn pad_without_a_net_gets_one_in_the_format_of_the_board() {
    let (content, _, old) = rewritten(set_pad_net(CODED, "U1", "2", "GND"));
    assert!(content.contains("(pad \"2\" smd (net 1 \"GND\"))"));
    assert_eq!(old, None);
    let (content, _, _) = rewritten(set_pad_net(NAMED, "U1", "2", "GND"));
    assert!(content.contains("(pad \"2\" smd (net \"GND\"))"));
    assert!(set_pad_net(NAMED, "U1", "2", "GND").is_ok());
}

#[test]
fn pad_that_is_on_the_net_is_left() {
    assert!(matches!(set_pad_net(CODED, "U1", "1", "GND"), Ok(PadNetEdit::Unchanged)));
    let (content, _, _) = rewritten(set_pad_net(CODED, "U1", "1", "VCC"));
    assert!(matches!(set_pad_net(&content, "U1", "1", "VCC"), Ok(PadNetEdit::Unchanged)));
    // The same for a pad that had no net, and for a name with parentheses in it.
    for (board, pad, net) in
        [(CODED, "2", "GND"), (NAMED, "2", "Net-(U1-Pad2)"), (NAMED, "1", "Net-(U1-Pad1)")]
    {
        let (content, _, _) = rewritten(set_pad_net(board, "U1", pad, net));
        assert!(matches!(set_pad_net(&content, "U1", pad, net), Ok(PadNetEdit::Unchanged)));
    }
    // Parentheses in the reference and the number do no harm.
    let board = "(k (footprint \"F\" (property \"Reference\" \"U(1)\") (pad \"(2)\" smd (net \"A\"))))";
    let (content, _, _) = rewritten(set_pad_net(board, "U(1)", "(2)", "B"));
    assert_eq!(content, board.replace("\"A\"", "\"B\""));
    assert!(matches!(set_pad_net(&content, "U(1)", "(2)", "B"), Ok(PadNetEdit::Unchanged)));
    // Nor does a name that holds what a footprint is looked for by, behind the reference.
    let (content, _, _) = rewritten(set_pad_net(board, "U(1)", "(2)", "(footprint "));
    assert!(matches!(
        set_pad_net(&content, "U(1)", "(2)", "(footprint "),
        Ok(PadNetEdit::Unchanged)
    ));
    // Before the reference it leads astray.
    let board = "(k (footprint \"F\" (pad \"1\" smd) (property \"Reference\" \"U1\")))";
    let (content, _, _) = rewritten(set_pad_net(board, "U1", "1", "(footprint "));
    assert!(matches!(
        set_pad_net(&content, "U1", "1", "(footprint "),
        Err(PadNetError::UnbalancedFootprint)
    ));
}

#[test]
fn each_error_says_what_is_wrong() {
    let cases: Vec<(&str, &str, &str, &str, PadNetError, &str)> = vec![
        ("(k", "U1", "1", "N", PadNetError::Malformed, "The board file is not one S-expression"),
        (CODED, "U2", "1", "GND", PadNetError::FootprintNotFound, "Footprint 'U2' not found"),
        (
            "(k (property \"Reference\" \"U1\"))",
            "U1",
            "1",
            "N",
            PadNetError::NoEnclosingFootprint,
            "Could not locate the footprint block enclosing 'U1'",
        ),
        (
            "(k \"(footprint \" (property \"Reference\" \"U1\"))",
            "U1",
            "1",
            "N",
            PadNetError::UnbalancedFootprint,
            "Unbalanced footprint block",
        ),
        (CODED, "U1", "3", "GND", PadNetError::PadNotFound, "Pad '3' not found on footprint 'U1'"),
        (
            CODED,
            "U1",
            "1",
            "NOPE",
            PadNetError::NotInNetTable,
            "Net 'NOPE' is not in the board's net table, so it has no net code. Add it first (add_net) or check the name.",
        ),
    ];
    for (board, reference, pad, net, error, message) in cases {
        let e = set_pad_net(board, reference, pad, net).unwrap_err();
        assert_eq!(e, error);
        assert_eq!(e.message(reference, pad, net), message);
    }
    assert_eq!(PadNetError::UnbalancedPad.message("", "", ""), "Unbalanced pad block");
    assert_eq!(PadNetError::UnbalancedNet.message("", "", ""), "Unbalanced (net ...) block on pad");
}

#[test]
fn blocks_inside_quoted_text_can_be_unbalanced() {
    // The pattern of the pad stands in a quoted text, whose rest leaves the block open.
    let board = "(k (footprint \"F\" (property \"Reference\" \"U1\") (descr \"(pad \\\"9\\\" \")))";
    assert!(matches!(set_pad_net(board, "U1", "9", "N"), Err(PadNetError::PadNotFound)));
    let board = "(k (footprint \"F\" (property \"Reference\" \"U1\") (pad \"1\" smd (descr \"(net \"))))";
    assert!(matches!(set_pad_net(board, "U1", "1", "N"), Err(PadNetError::UnbalancedNet)));
}

#[test]
fn white_space_before_a_code_does_not_matter() {
    let board = "(k (net 1 \"A\") (net 2 \"B\") (footprint \"F\" (property \"Reference\" \"U1\") (pad \"1\" smd (net \u{a0}\t1 \"A\"))))";
    let (content, code, _) = rewritten(set_pad_net(board, "U1", "1", "B"));
    assert!(content.contains("(pad \"1\" smd (net 2 \"B\"))"));
    assert_eq!(code.as_deref(), Some("2"));
}
