use konnect_core::cli::{
    export_3d, export_bom, export_drill, export_dxf, export_gencad, export_gerber, export_ipc2581,
    export_ipcd356, export_netlist, export_odb, export_pdf, export_position_file,
    export_schematic_pdf, export_schematic_svg, export_svg_pcb, model_format, netlist_format,
    render_pcb_png, run_drc, run_erc, view_layers,
};
use konnect_core::image::png_image;
use konnect_core::json::parse_json;

fn line(words: &[String]) -> String {
    words.join(" ")
}

fn layers(names: &[&str]) -> Vec<String> {
    names.iter().map(|n| n.to_string()).collect()
}

#[test]
fn checks_write_json_reports() {
    assert_eq!(line(&run_erc("a.kicad_sch", "o")), "sch erc --output o --format json a.kicad_sch");
    assert_eq!(line(&run_drc("b", "o", false, false)), "pcb drc --output o --format json b");
    assert_eq!(
        line(&run_drc("b", "o", true, true)),
        "pcb drc --output o --format json --schematic-parity --refill-zones b"
    );
    assert_eq!(line(&run_drc("b", "o", true, false)), "pcb drc --output o --format json --refill-zones b");
}

#[test]
fn schematic_exports_name_their_input_last() {
    assert_eq!(line(&export_schematic_svg("s", "d")), "sch export svg --output d s");
    assert_eq!(line(&export_schematic_pdf("s", "o")), "sch export pdf --output o s");
    assert_eq!(line(&export_bom("s", "o")), "sch export bom --output o s");
    assert_eq!(
        line(&export_netlist("s", "o", "KiCad")),
        "sch export netlist --output o --format kicadsexpr s"
    );
    assert_eq!(line(&export_netlist("s", "o", "XML")), "sch export netlist --output o --format kicadxml s");
    assert_eq!(line(&export_netlist("s", "o", "ÄB")), "sch export netlist --output o --format äb s");
}

#[test]
fn netlist_formats_have_friendly_names() {
    for (name, format) in [
        ("kicad", "kicadsexpr"),
        ("kicadsexpr", "kicadsexpr"),
        ("sexp", "kicadsexpr"),
        ("xml", "kicadxml"),
        ("kicadxml", "kicadxml"),
        ("spice", "spice"),
        ("cadstar", "cadstar"),
        ("orcad", "orcadpcb2"),
        ("orcadpcb2", "orcadpcb2"),
        ("pads", "pads"),
        ("allegro", "allegro"),
        ("spicemodel", "spicemodel"),
    ] {
        assert_eq!(netlist_format(name), format);
    }
}

#[test]
fn board_exports_name_their_input_last() {
    assert_eq!(line(&export_gerber("b", "d")), "pcb export gerbers --output d b");
    assert_eq!(line(&export_drill("b", "o")), "pcb export drill --output o b");
    assert_eq!(
        line(&export_pdf("b", "o", &layers(&["F.Cu", "B.Cu"]))),
        "pcb export pdf --output o --layers F.Cu --layers B.Cu b"
    );
    assert_eq!(line(&export_svg_pcb("b", "o", &layers(&[]))), "pcb export svg --output o b");
    assert_eq!(
        line(&export_position_file("b", "o", "csv")),
        "pcb export pos --output o --format csv b"
    );
    assert_eq!(line(&export_ipcd356("b", "o")), "pcb export ipcd356 --output o b");
    assert_eq!(line(&export_gencad("b", "o")), "pcb export gencad --output o b");
    assert_eq!(
        line(&export_ipc2581("b", "o", "mm", true)),
        "pcb export ipc2581 --output o --units mm --compress b"
    );
    assert_eq!(line(&export_ipc2581("b", "o", "in", false)), "pcb export ipc2581 --output o --units in b");
    assert_eq!(
        line(&export_odb("b", "o", "mm", "zip")),
        "pcb export odb --output o --units mm --compression zip b"
    );
    assert_eq!(
        line(&render_pcb_png("b", "o", &layers(&["F.Cu"]))),
        "pcb render --output o --layers F.Cu b"
    );
}

#[test]
fn dxf_takes_its_layers_in_one_argument() {
    assert_eq!(
        line(&export_dxf("b", "d", &layers(&["F.Cu", "B.Cu", "Edge.Cuts"]))),
        "pcb export dxf --output d --layers F.Cu,B.Cu,Edge.Cuts --mode-multi b"
    );
    assert_eq!(line(&export_dxf("b", "d", &layers(&[]))), "pcb export dxf --output d --mode-multi b");
    assert_eq!(line(&export_dxf("b", "d", &layers(&[""]))), "pcb export dxf --output d --mode-multi b");
}

#[test]
fn models_are_exported_in_supported_formats() {
    assert_eq!(line(&export_3d("b", "o", "STP").unwrap()), "pcb export step --output o b");
    for (name, format) in [
        ("step", "step"),
        ("wrl", "vrml"),
        ("gltf", "glb"),
        ("brep", "brep"),
        ("stl", "stl"),
        ("ply", "ply"),
        ("stpz", "stpz"),
        ("u3d", "u3d"),
        ("xao", "xao"),
        ("pdf3d", "3dpdf"),
    ] {
        assert_eq!(model_format(name).as_deref(), Some(format));
    }
    let e = export_3d("b", "o", "OBJ").unwrap_err();
    assert_eq!(e.name, "obj");
    assert_eq!(
        e.message(),
        "Unsupported 3D format: 'obj'. Supported: step, vrml, glb, brep, stl, ply, stpz, u3d, xao, 3dpdf"
    );
}

#[test]
fn empty_layer_list_asks_for_the_default_layers() {
    let default = vec!["F.Cu", "B.Cu", "F.SilkS", "B.SilkS", "Edge.Cuts"];
    assert_eq!(view_layers(&parse_json("{}").unwrap()), default);
    assert_eq!(view_layers(&parse_json(r#"{"layers": []}"#).unwrap()), default);
    assert_eq!(
        view_layers(&parse_json(r#"{"layers": ["F.Mask", 3, "B.Mask"]}"#).unwrap()),
        vec!["F.Mask", "B.Mask"]
    );
}

#[test]
fn images_are_handed_out_in_base64() {
    let image = png_image(&vec![0x89, 0x50, 0x4e, 0x47]);
    assert_eq!(image.data, "iVBORw==");
    assert_eq!(image.mime_type, "image/png");
    assert_eq!(png_image(&vec![]).data, "");
}
