use konnect_core::json::parse_json;
use konnect_core::layout::{align_component, route_pad_to_pad, ArrayPlacement, Segment};
use konnect_core::requests::{
    add_via_params, net_filter, place_component_array_params, read_arguments, references,
    route_differential_pair_params, route_pad_to_pad_params, set_pad_net_params, Argument,
    get_unrouted_connections_params, ArgumentError,
};

#[test]
fn routes_bend_once_unless_the_ends_are_in_line() {
    assert_eq!(
        route_pad_to_pad(1, 2, 5, 2, true),
        vec![Segment { x1: 1, y1: 2, x2: 5, y2: 2 }]
    );
    assert_eq!(
        route_pad_to_pad(1, 2, 5, 9, false),
        vec![Segment { x1: 1, y1: 2, x2: 5, y2: 2 }, Segment { x1: 5, y1: 2, x2: 5, y2: 9 }]
    );
}

#[test]
fn components_are_aligned_along_an_axis() {
    assert_eq!(align_component("x", 7, 1, 2), (7, 2));
    assert_eq!(align_component("y", 7, 1, 2), (1, 7));
    assert_eq!(align_component("diagonal", 7, 1, 2), (7, 2));
}

#[test]
fn arrays_are_placed_row_by_row() {
    let mut p = ArrayPlacement::new("R".to_string(), 2, 2, 9);
    let mut seen = Vec::new();
    while p.has_next() {
        let c = p.next_cell().unwrap();
        seen.push((c.column, c.row, c.reference));
    }
    assert_eq!(
        seen,
        vec![
            (0, 0, "R9".to_string()),
            (1, 0, "R10".to_string()),
            (0, 1, "R11".to_string()),
            (1, 1, "R12".to_string()),
        ]
    );
    assert!(p.next_cell().is_none());
    assert!(!ArrayPlacement::new("R".to_string(), 0, 5, 1).has_next());
}

fn number(a: &Argument) -> f64 {
    match a {
        Argument::Number(n) => n.as_f64().unwrap(),
        other => panic!("expected a number, got {:?}", other),
    }
}

#[test]
fn arguments_that_are_left_out_have_defaults() {
    let args = parse_json(r#"{ "net_name": "GND", "x": 1, "y": 2.5, "drill": 0.3 }"#).unwrap();
    let v = read_arguments(&args, &add_via_params()).unwrap();
    assert_eq!(v[0], Argument::Text("GND".to_string()));
    assert_eq!(v[1..].iter().map(number).collect::<Vec<f64>>(), vec![1.0, 2.5, 0.3, 0.8]);

    let args = parse_json(
        r#"{ "footprint": "F", "start_x": 0, "start_y": 0, "count_x": 3, "spacing_x": 2 }"#,
    )
    .unwrap();
    let v = read_arguments(&args, &place_component_array_params()).unwrap();
    assert_eq!(v[3], Argument::Count(3));
    assert_eq!(v[4], Argument::Count(1));
    assert_eq!(number(&v[5]), 2.0);
    assert_eq!(number(&v[6]), 0.0);
    assert_eq!(v[7], Argument::Text("U".to_string()));
    assert_eq!(v[8], Argument::Count(1));

    let v = read_arguments(
        &parse_json(r#"{ "board": "b", "refill_zones": false }"#).unwrap(),
        &get_unrouted_connections_params(),
    )
    .unwrap();
    assert_eq!(v[1], Argument::Truth(false));
}

#[test]
fn first_missing_argument_is_the_error() {
    let missing = |text: &str| {
        read_arguments(&parse_json(text).unwrap(), &set_pad_net_params()).unwrap_err()
    };
    assert_eq!(missing("{}"), ArgumentError::Path("board".to_string()));
    assert_eq!(missing(r#"{ "board": "b", "net_name": "N" }"#), ArgumentError::Text("reference".to_string()));
    assert_eq!(missing(r#"{ "board": 1 }"#).message(), "Missing 'board' path");
    let e = read_arguments(
        &parse_json(r#"{ "net_pos": "P", "net_neg": "N", "x1": 0, "y1": "0" }"#).unwrap(),
        &route_differential_pair_params(),
    )
    .unwrap_err();
    assert_eq!(e, ArgumentError::Number("y1".to_string()));
    assert_eq!(e.message(), "Missing 'y1' number");
    assert_eq!(
        read_arguments(&parse_json("[]").unwrap(), &route_pad_to_pad_params()).unwrap_err().message(),
        "Missing 'board' path"
    );
}

#[test]
fn lists_keep_the_texts_among_their_items() {
    let args = parse_json(r#"{ "net_filter": ["A", 1, "B"], "references": ["R1", null] }"#).unwrap();
    assert_eq!(net_filter(&args), Some(vec!["A".to_string(), "B".to_string()]));
    assert_eq!(references(&args), vec!["R1"]);
    let none = parse_json("{}").unwrap();
    assert_eq!(net_filter(&none), None);
    assert!(references(&none).is_empty());
}
