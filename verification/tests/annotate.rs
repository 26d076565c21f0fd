use konnect_core::annotate::{annotate_schematic, can_annotate};

#[test]
fn unnumbered_references_follow_the_highest_number() {
    let s = r#"(a (reference "R1") (reference "R?") (reference "C?") (reference "R7") (reference "R?"))"#;
    assert!(can_annotate(s));
    assert_eq!(
        annotate_schematic(s),
        r#"(a (reference "R1") (reference "R8") (reference "C1") (reference "R7") (reference "R9"))"#
    );
}

#[test]
fn annotated_schematic_is_left_as_it_is() {
    let s = r#"(a (reference "R1") (reference "U3A") (b "?") (reference ""))"#;
    assert_eq!(annotate_schematic(s), s);
    let once = annotate_schematic(r#"(reference "Q?") (reference "Q?")"#);
    assert_eq!(once, r#"(reference "Q1") (reference "Q2")"#);
    assert_eq!(annotate_schematic(&once), once);
}

#[test]
fn annotated_schematic_can_be_annotated_again() {
    let s = r#"(reference "R?") (reference "C12") (reference "C?") (reference "U1?")"#;
    let once = annotate_schematic(s);
    assert_eq!(once, r#"(reference "R1") (reference "C12") (reference "C13") (reference "U11")"#);
    assert!(can_annotate(&once));
    assert_eq!(annotate_schematic(&once), once);
    // Behind a prefix of digits a number can read as the highest one there is.
    let five = "(reference \"R1844674407370955161?\")".repeat(5);
    assert!(can_annotate(&five));
    assert!(!can_annotate(&annotate_schematic(&five)));
}

#[test]
fn power_symbols_and_several_marks_are_numbered() {
    let s = r##"(reference "#PWR?") (reference "#PWR04") (reference "J??") (reference "?")"##;
    assert_eq!(
        annotate_schematic(s),
        r##"(reference "#PWR5") (reference "#PWR04") (reference "J1") (reference "1")"##
    );
}

#[test]
fn letters_outside_ascii_take_more_bytes_than_characters() {
    // The number of "Ω1" is looked for two characters on, and not found.
    assert_eq!(
        annotate_schematic(r#"(reference "XΩ11") (reference "XΩ?")"#),
        r#"(reference "XΩ11") (reference "XΩ2")"#
    );
}

#[test]
fn references_that_cannot_be_read_are_refused() {
    assert!(!can_annotate("(reference \""));
    assert!(!can_annotate("(reference \"Ω1\")"));
    assert!(can_annotate("(reference \"R"));
    assert_eq!(annotate_schematic("(reference \"R"), "(reference \"R");
    // A number that has none after it.
    assert!(!can_annotate("(reference \"R18446744073709551615\")"));
    assert!(can_annotate("(reference \"R18446744073709551616\")"));
    assert!(!can_annotate("(reference \"R18446744073709551614\") (reference \"R?\")"));
}
