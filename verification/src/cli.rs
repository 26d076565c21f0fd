//! The command lines of kicad-cli: which arguments a check, an export or a rendering
//! is asked for with.
use vstd::prelude::*;
use crate::decimal::ascii_lower;
use crate::json::{json_trees, Json, JsonTree};
use crate::order::texts;
use crate::text::{quoted, same_text};

verus! {

// ─── Names of formats ─────────────────────────────────────────────────────────

/// Is a text made of ASCII characters alone?
pub open spec fn is_ascii_text(t: Seq<char>) -> bool {
    forall|i: int| 0 <= i < t.len() ==> #[trigger] t[i] <= '\u{7f}'
}

/// A text with characters outside ASCII in lower case.
pub uninterp spec fn unicode_lower(t: Seq<char>) -> Seq<char>;

/// A text in lower case.
pub open spec fn lower_text(t: Seq<char>) -> Seq<char> {
    if is_ascii_text(t) {
        Seq::new(t.len(), |i: int| ascii_lower(t[i]))
    } else {
        unicode_lower(t)
    }
}

/// `str::to_lowercase` puts a text in lower case. In ASCII that changes `A` to `Z`
/// alone; what becomes of other texts depends on the text alone.
pub assume_specification[ str::to_lowercase ](s: &str) -> (r: String)
    ensures
        r@ == lower_text(s@),
        r@ == unicode_lower(s@) || is_ascii_text(s@),
;

/// The netlist format that a name in lower case stands for. A name that stands for
/// none is handed on as it is.
pub open spec fn netlist_format_of(name: Seq<char>) -> Seq<char> {
    if name == "kicad"@ || name == "kicadsexpr"@ || name == "sexp"@ {
        "kicadsexpr"@
    } else if name == "xml"@ || name == "kicadxml"@ {
        "kicadxml"@
    } else if name == "orcad"@ || name == "orcadpcb2"@ {
        "orcadpcb2"@
    } else {
        name
    }
}

/// The netlist format that a name in lower case stands for.
pub fn netlist_format(name: &str) -> (r: String)
    ensures
        r@ == netlist_format_of(name@),
{
    if same_text(name, "kicad") || same_text(name, "kicadsexpr") || same_text(name, "sexp") {
        "kicadsexpr".to_owned()
    } else if same_text(name, "xml") || same_text(name, "kicadxml") {
        "kicadxml".to_owned()
    } else if same_text(name, "orcad") || same_text(name, "orcadpcb2") {
        "orcadpcb2".to_owned()
    } else {
        name.to_owned()
    }
}

/// The export of a 3D model that a name in lower case stands for.
pub open spec fn model_format_of(name: Seq<char>) -> Option<Seq<char>> {
    if name == "step"@ || name == "stp"@ {
        Some("step"@)
    } else if name == "vrml"@ || name == "wrl"@ {
        Some("vrml"@)
    } else if name == "glb"@ || name == "gltf"@ {
        Some("glb"@)
    } else if name == "3dpdf"@ || name == "pdf3d"@ {
        Some("3dpdf"@)
    } else if name == "brep"@ || name == "stl"@ || name == "ply"@ || name == "stpz"@ || name
        == "u3d"@ || name == "xao"@ {
        Some(name)
    } else {
        None
    }
}

/// The export of a 3D model that a name in lower case stands for.
pub fn model_format(name: &str) -> (r: Option<String>)
    ensures
        match r {
            Some(t) => model_format_of(name@) == Some(t@),
            None => model_format_of(name@) is None,
        },
{
    if same_text(name, "step") || same_text(name, "stp") {
        Some("step".to_owned())
    } else if same_text(name, "vrml") || same_text(name, "wrl") {
        Some("vrml".to_owned())
    } else if same_text(name, "glb") || same_text(name, "gltf") {
        Some("glb".to_owned())
    } else if same_text(name, "3dpdf") || same_text(name, "pdf3d") {
        Some("3dpdf".to_owned())
    } else if same_text(name, "brep") || same_text(name, "stl") || same_text(name, "ply")
        || same_text(name, "stpz") || same_text(name, "u3d") || same_text(name, "xao") {
        Some(name.to_owned())
    } else {
        None
    }
}

/// A 3D format that kicad-cli does not have, in lower case.
#[derive(Debug, Clone, PartialEq)]
pub struct UnsupportedFormat {
    pub name: String,
}

impl UnsupportedFormat {
    /// The error in words.
    pub fn message(&self) -> (r: String)
        ensures
            r@ == "Unsupported 3D format: '"@ + self.name@
                + "'. Supported: step, vrml, glb, brep, stl, ply, stpz, u3d, xao, 3dpdf"@,
    {
        quoted(
            "Unsupported 3D format: '",
            self.name.as_str(),
            "'. Supported: step, vrml, glb, brep, stl, ply, stpz, u3d, xao, 3dpdf",
        )
    }
}

// ─── Building command lines ───────────────────────────────────────────────────

/// The command line of an export: what to export, where to, and from what.
pub open spec fn export_words(
    tool: Seq<char>,
    what: Seq<char>,
    output: Seq<char>,
    input: Seq<char>,
) -> Seq<Seq<char>> {
    seq![tool, "export"@, what, "--output"@, output, input]
}

fn export_line(tool: &str, what: &str, output: &str, input: &str) -> (r: Vec<String>)
    ensures
        texts(r@) == export_words(tool@, what@, output@, input@),
{
    let r: Vec<String> = vec![
        tool.to_owned(),
        "export".to_owned(),
        what.to_owned(),
        "--output".to_owned(),
        output.to_owned(),
        input.to_owned(),
    ];
    assert(texts(r@) =~= export_words(tool@, what@, output@, input@));
    r
}

/// One `--layers` flag for each layer.
pub open spec fn layer_flags(layers: Seq<Seq<char>>) -> Seq<Seq<char>>
    decreases layers.len(),
{
    if layers.len() == 0 {
        Seq::empty()
    } else {
        layer_flags(layers.drop_last()).push("--layers"@).push(layers.last())
    }
}

/// The layers in one text, with commas between them.
pub open spec fn comma_separated(layers: Seq<Seq<char>>) -> Seq<char>
    decreases layers.len(),
{
    if layers.len() == 0 {
        Seq::empty()
    } else if layers.len() == 1 {
        layers[0]
    } else {
        comma_separated(layers.drop_last()) + ","@ + layers.last()
    }
}

fn add_word(line: &mut Vec<String>, word: &str)
    ensures
        texts(final(line)@) == texts(old(line)@).push(word@),
{
    let ghost before = line@;
    let w = word.to_owned();
    line.push(w);
    assert(texts(line@) =~= texts(before).push(word@));
}

fn add_layer_flags(line: &mut Vec<String>, layers: &Vec<String>)
    ensures
        texts(final(line)@) == texts(old(line)@) + layer_flags(texts(layers@)),
{
    let ghost before = texts(line@);
    let ghost all = texts(layers@);
    let mut i: usize = 0;
    assert(before + layer_flags(all.take(0)) =~= before);
    while i < layers.len()
        invariant
            i <= layers@.len(),
            all == texts(layers@),
            texts(line@) == before + layer_flags(all.take(i as int)),
        decreases layers@.len() - i,
    {
        proof {
            assert(all.take(i + 1).drop_last() =~= all.take(i as int));
            assert(all.take(i + 1).last() == layers@[i as int]@);
        }
        add_word(line, "--layers");
        add_word(line, layers[i].as_str());
        assert(texts(line@) =~= before + layer_flags(all.take(i + 1)));
        i = i + 1;
    }
    assert(all.take(layers@.len() as int) =~= all);
}

fn join_layers(layers: &Vec<String>) -> (r: String)
    ensures
        r@ == comma_separated(texts(layers@)),
{
    let ghost all = texts(layers@);
    let mut out = String::new();
    let mut i: usize = 0;
    assert(out@ =~= comma_separated(all.take(0)));
    while i < layers.len()
        invariant
            i <= layers@.len(),
            all == texts(layers@),
            out@ == comma_separated(all.take(i as int)),
        decreases layers@.len() - i,
    {
        proof {
            assert(all.take(i + 1).drop_last() =~= all.take(i as int));
            assert(all.take(i + 1).last() == layers@[i as int]@);
        }
        if i > 0 {
            out.append(",");
        }
        out.append(layers[i].as_str());
        assert(out@ =~= comma_separated(all.take(i + 1)));
        i = i + 1;
    }
    assert(all.take(layers@.len() as int) =~= all);
    out
}

// ─── Checks ───────────────────────────────────────────────────────────────────

/// The command line that checks the electrical rules of a schematic.
pub fn run_erc(schematic: &str, report: &str) -> (r: Vec<String>)
    ensures
        texts(r@) == seq![
            "sch"@,
            "erc"@,
            "--output"@,
            report@,
            "--format"@,
            "json"@,
            schematic@,
        ],
{
    let r: Vec<String> = vec![
        "sch".to_owned(),
        "erc".to_owned(),
        "--output".to_owned(),
        report.to_owned(),
        "--format".to_owned(),
        "json".to_owned(),
        schematic.to_owned(),
    ];
    assert(texts(r@) =~= seq![
        "sch"@,
        "erc"@,
        "--output"@,
        report@,
        "--format"@,
        "json"@,
        schematic@,
    ]);
    r
}

/// The command line that checks the design rules of a board.
pub open spec fn drc_words(
    pcb: Seq<char>,
    report: Seq<char>,
    refill_zones: bool,
    schematic_parity: bool,
) -> Seq<Seq<char>> {
    seq!["pcb"@, "drc"@, "--output"@, report, "--format"@, "json"@] + (if schematic_parity {
        seq!["--schematic-parity"@]
    } else {
        Seq::empty()
    }) + (if refill_zones {
        seq!["--refill-zones"@]
    } else {
        Seq::empty()
    }) + seq![pcb]
}

/// The command line that checks the design rules of a board, with zones refilled
/// before and the board held against its schematic where that is asked for.
pub fn run_drc(pcb: &str, report: &str, refill_zones: bool, schematic_parity: bool) -> (r: Vec<
    String,
>)
    ensures
        texts(r@) == drc_words(pcb@, report@, refill_zones, schematic_parity),
{
    let mut r: Vec<String> = vec![
        "pcb".to_owned(),
        "drc".to_owned(),
        "--output".to_owned(),
        report.to_owned(),
        "--format".to_owned(),
        "json".to_owned(),
    ];
    assert(texts(r@) =~= seq!["pcb"@, "drc"@, "--output"@, report@, "--format"@, "json"@]);
    if schematic_parity {
        add_word(&mut r, "--schematic-parity");
    }
    if refill_zones {
        add_word(&mut r, "--refill-zones");
    }
    add_word(&mut r, pcb);
    assert(texts(r@) =~= drc_words(pcb@, report@, refill_zones, schematic_parity));
    r
}

// ─── Exports of a schematic ───────────────────────────────────────────────────

/// The command line that exports a schematic as SVG.
pub fn export_schematic_svg(schematic: &str, output_dir: &str) -> (r: Vec<String>)
    ensures
        texts(r@) == export_words("sch"@, "svg"@, output_dir@, schematic@),
{
    export_line("sch", "svg", output_dir, schematic)
}

/// The command line that exports a schematic as PDF.
pub fn export_schematic_pdf(schematic: &str, output: &str) -> (r: Vec<String>)
    ensures
        texts(r@) == export_words("sch"@, "pdf"@, output@, schematic@),
{
    export_line("sch", "pdf", output, schematic)
}

/// The command line that exports a bill of materials.
pub fn export_bom(schematic: &str, output: &str) -> (r: Vec<String>)
    ensures
        texts(r@) == export_words("sch"@, "bom"@, output@, schematic@),
{
    export_line("sch", "bom", output, schematic)
}

/// The command line that exports a netlist.
pub open spec fn netlist_words(schematic: Seq<char>, output: Seq<char>, format: Seq<char>) -> Seq<
    Seq<char>,
> {
    seq!["sch"@, "export"@, "netlist"@, "--output"@, output, "--format"@, format, schematic]
}

/// The command line that exports a netlist in a format that is named in any case.
pub fn export_netlist(schematic: &str, output: &str, format: &str) -> (r: Vec<String>)
    ensures
        texts(r@) == netlist_words(
            schematic@,
            output@,
            netlist_format_of(lower_text(format@)),
        ),
{
    let lower = format.to_lowercase();
    let r: Vec<String> = vec![
        "sch".to_owned(),
        "export".to_owned(),
        "netlist".to_owned(),
        "--output".to_owned(),
        output.to_owned(),
        "--format".to_owned(),
        netlist_format(lower.as_str()),
        schematic.to_owned(),
    ];
    assert(texts(r@) =~= netlist_words(
        schematic@,
        output@,
        netlist_format_of(lower_text(format@)),
    ));
    r
}

// ─── Exports of a board ───────────────────────────────────────────────────────

/// The command line that exports Gerber files.
pub fn export_gerber(pcb: &str, output_dir: &str) -> (r: Vec<String>)
    ensures
        texts(r@) == export_words("pcb"@, "gerbers"@, output_dir@, pcb@),
{
    export_line("pcb", "gerbers", output_dir, pcb)
}

/// The command line that exports drill files.
pub fn export_drill(pcb: &str, output: &str) -> (r: Vec<String>)
    ensures
        texts(r@) == export_words("pcb"@, "drill"@, output@, pcb@),
{
    export_line("pcb", "drill", output, pcb)
}

/// The command line that exports layers of a board.
pub open spec fn layered_words(
    what: Seq<char>,
    output: Seq<char>,
    layers: Seq<Seq<char>>,
    pcb: Seq<char>,
) -> Seq<Seq<char>> {
    seq!["pcb"@, "export"@, what, "--output"@, output] + layer_flags(layers) + seq![pcb]
}

fn layered_line(what: &str, output: &str, layers: &Vec<String>, pcb: &str) -> (r: Vec<String>)
    ensures
        texts(r@) == layered_words(what@, output@, texts(layers@), pcb@),
{
    let mut r: Vec<String> = vec![
        "pcb".to_owned(),
        "export".to_owned(),
        what.to_owned(),
        "--output".to_owned(),
        output.to_owned(),
    ];
    assert(texts(r@) =~= seq!["pcb"@, "export"@, what@, "--output"@, output@]);
    add_layer_flags(&mut r, layers);
    add_word(&mut r, pcb);
    assert(texts(r@) =~= layered_words(what@, output@, texts(layers@), pcb@));
    r
}

/// The command line that exports layers of a board as PDF.
pub fn export_pdf(pcb: &str, output: &str, layers: &Vec<String>) -> (r: Vec<String>)
    ensures
        texts(r@) == layered_words("pdf"@, output@, texts(layers@), pcb@),
{
    layered_line("pdf", output, layers, pcb)
}

/// The command line that exports layers of a board as SVG.
pub fn export_svg_pcb(pcb: &str, output: &str, layers: &Vec<String>) -> (r: Vec<String>)
    ensures
        texts(r@) == layered_words("svg"@, output@, texts(layers@), pcb@),
{
    layered_line("svg", output, layers, pcb)
}

/// The command line that exports a 3D model in a format that is named in any case.
pub fn export_3d(pcb: &str, output: &str, format: &str) -> (r: Result<
    Vec<String>,
    UnsupportedFormat,
>)
    ensures
        match r {
            Ok(line) => model_format_of(lower_text(format@)) matches Some(what) && texts(line@)
                == export_words("pcb"@, what, output@, pcb@),
            Err(e) => model_format_of(lower_text(format@)) is None && e.name@ == lower_text(
                format@,
            ),
        },
{
    let lower = format.to_lowercase();
    match model_format(lower.as_str()) {
        Some(what) => Ok(export_line("pcb", what.as_str(), output, pcb)),
        None => Err(UnsupportedFormat { name: lower }),
    }
}

/// The command line that exports component positions.
pub fn export_position_file(pcb: &str, output: &str, format: &str) -> (r: Vec<String>)
    ensures
        texts(r@) == seq![
            "pcb"@,
            "export"@,
            "pos"@,
            "--output"@,
            output@,
            "--format"@,
            format@,
            pcb@,
        ],
{
    let r: Vec<String> = vec![
        "pcb".to_owned(),
        "export".to_owned(),
        "pos".to_owned(),
        "--output".to_owned(),
        output.to_owned(),
        "--format".to_owned(),
        format.to_owned(),
        pcb.to_owned(),
    ];
    assert(texts(r@) =~= seq![
        "pcb"@,
        "export"@,
        "pos"@,
        "--output"@,
        output@,
        "--format"@,
        format@,
        pcb@,
    ]);
    r
}

/// The command line that exports an IPC-D-356 netlist.
pub fn export_ipcd356(pcb: &str, output: &str) -> (r: Vec<String>)
    ensures
        texts(r@) == export_words("pcb"@, "ipcd356"@, output@, pcb@),
{
    export_line("pcb", "ipcd356", output, pcb)
}

/// The command line that exports layers of a board as DXF, one file for each.
pub open spec fn dxf_words(pcb: Seq<char>, output_dir: Seq<char>, layers: Seq<Seq<char>>) -> Seq<
    Seq<char>,
> {
    seq!["pcb"@, "export"@, "dxf"@, "--output"@, output_dir] + (if comma_separated(layers).len()
        == 0 {
        Seq::empty()
    } else {
        seq!["--layers"@, comma_separated(layers)]
    }) + seq!["--mode-multi"@, pcb]
}

/// The command line that exports layers of a board as DXF, one file for each. Here the
/// layers go in one argument.
pub fn export_dxf(pcb: &str, output_dir: &str, layers: &Vec<String>) -> (r: Vec<String>)
    ensures
        texts(r@) == dxf_words(pcb@, output_dir@, texts(layers@)),
{
    let joined = join_layers(layers);
    let mut r: Vec<String> = vec![
        "pcb".to_owned(),
        "export".to_owned(),
        "dxf".to_owned(),
        "--output".to_owned(),
        output_dir.to_owned(),
    ];
    assert(texts(r@) =~= seq!["pcb"@, "export"@, "dxf"@, "--output"@, output_dir@]);
    if !joined.as_str().is_empty() {
        add_word(&mut r, "--layers");
        add_word(&mut r, joined.as_str());
    }
    add_word(&mut r, "--mode-multi");
    add_word(&mut r, pcb);
    assert(texts(r@) =~= dxf_words(pcb@, output_dir@, texts(layers@)));
    r
}

/// The command line that exports a GenCAD file.
pub fn export_gencad(pcb: &str, output: &str) -> (r: Vec<String>)
    ensures
        texts(r@) == export_words("pcb"@, "gencad"@, output@, pcb@),
{
    export_line("pcb", "gencad", output, pcb)
}

/// The command line that exports an IPC-2581 file.
pub open spec fn ipc2581_words(
    pcb: Seq<char>,
    output: Seq<char>,
    units: Seq<char>,
    compress: bool,
) -> Seq<Seq<char>> {
    seq!["pcb"@, "export"@, "ipc2581"@, "--output"@, output, "--units"@, units] + (if compress {
        seq!["--compress"@]
    } else {
        Seq::empty()
    }) + seq![pcb]
}

/// The command line that exports an IPC-2581 file, compressed where that is asked for.
pub fn export_ipc2581(pcb: &str, output: &str, units: &str, compress: bool) -> (r: Vec<String>)
    ensures
        texts(r@) == ipc2581_words(pcb@, output@, units@, compress),
{
    let mut r: Vec<String> = vec![
        "pcb".to_owned(),
        "export".to_owned(),
        "ipc2581".to_owned(),
        "--output".to_owned(),
        output.to_owned(),
        "--units".to_owned(),
        units.to_owned(),
    ];
    assert(texts(r@) =~= seq![
        "pcb"@,
        "export"@,
        "ipc2581"@,
        "--output"@,
        output@,
        "--units"@,
        units@,
    ]);
    if compress {
        add_word(&mut r, "--compress");
    }
    add_word(&mut r, pcb);
    assert(texts(r@) =~= ipc2581_words(pcb@, output@, units@, compress));
    r
}

/// The command line that exports an ODB++ archive.
pub fn export_odb(pcb: &str, output: &str, units: &str, compression: &str) -> (r: Vec<String>)
    ensures
        texts(r@) == seq![
            "pcb"@,
            "export"@,
            "odb"@,
            "--output"@,
            output@,
            "--units"@,
            units@,
            "--compression"@,
            compression@,
            pcb@,
        ],
{
    let r: Vec<String> = vec![
        "pcb".to_owned(),
        "export".to_owned(),
        "odb".to_owned(),
        "--output".to_owned(),
        output.to_owned(),
        "--units".to_owned(),
        units.to_owned(),
        "--compression".to_owned(),
        compression.to_owned(),
        pcb.to_owned(),
    ];
    assert(texts(r@) =~= seq![
        "pcb"@,
        "export"@,
        "odb"@,
        "--output"@,
        output@,
        "--units"@,
        units@,
        "--compression"@,
        compression@,
        pcb@,
    ]);
    r
}

// ─── Rendering ────────────────────────────────────────────────────────────────

/// The command line that renders layers of a board.
pub fn render_pcb_png(pcb: &str, output: &str, layers: &Vec<String>) -> (r: Vec<String>)
    ensures
        texts(r@) == seq!["pcb"@, "render"@, "--output"@, output@] + layer_flags(texts(layers@))
            + seq![pcb@],
{
    let mut r: Vec<String> = vec![
        "pcb".to_owned(),
        "render".to_owned(),
        "--output".to_owned(),
        output.to_owned(),
    ];
    assert(texts(r@) =~= seq!["pcb"@, "render"@, "--output"@, output@]);
    add_layer_flags(&mut r, layers);
    add_word(&mut r, pcb);
    assert(texts(r@) =~= seq!["pcb"@, "render"@, "--output"@, output@] + layer_flags(
        texts(layers@),
    ) + seq![pcb@]);
    r
}

/// The texts among a list of JSON values, in order.
pub open spec fn texts_among(items: Seq<JsonTree>) -> Seq<Seq<char>>
    decreases items.len(),
{
    if items.len() == 0 {
        Seq::empty()
    } else {
        match items.last().text() {
            Some(t) => texts_among(items.drop_last()).push(t),
            None => texts_among(items.drop_last()),
        }
    }
}

/// The texts among a list of JSON values, in order.
pub fn list_texts(items: &Vec<Json>) -> (r: Vec<String>)
    ensures
        texts(r@) == texts_among(json_trees(items@)),
{
    let ghost all = json_trees(items@);
    let mut out: Vec<String> = Vec::new();
    assert(texts(out@) =~= Seq::<Seq<char>>::empty());
    let mut i: usize = 0;
    while i < items.len()
        invariant
            i <= items@.len(),
            all == json_trees(items@),
            texts(out@) == texts_among(all.take(i as int)),
        decreases items@.len() - i,
    {
        proof {
            assert(all.take(i + 1).drop_last() =~= all.take(i as int));
            assert(all.take(i + 1).last() == items@[i as int]@);
        }
        if let Some(t) = items[i].as_str() {
            add_word(&mut out, t);
        }
        i = i + 1;
    }
    assert(all.take(items@.len() as int) =~= all);
    out
}

/// The layers that are shown where none are asked for.
pub open spec fn default_layers() -> Seq<Seq<char>> {
    seq!["F.Cu"@, "B.Cu"@, "F.SilkS"@, "B.SilkS"@, "Edge.Cuts"@]
}

/// The layers that a request to show a board asks for. An empty list asks for the
/// default ones, as no list does.
pub open spec fn view_layers_of(args: JsonTree) -> Seq<Seq<char>> {
    match args.get_items("layers"@) {
        Some(items) => if texts_among(items).len() == 0 {
            default_layers()
        } else {
            texts_among(items)
        },
        None => default_layers(),
    }
}

/// The layers that a request to show a board asks for.
pub fn view_layers(args: &Json) -> (r: Vec<String>)
    ensures
        texts(r@) == view_layers_of(args@),
{
    if let Some(items) = args.get_array("layers") {
        let asked = list_texts(items);
        assert(texts(asked@).len() == asked@.len());
        if asked.len() > 0 {
            return asked;
        }
    }
    let r: Vec<String> = vec![
        "F.Cu".to_owned(),
        "B.Cu".to_owned(),
        "F.SilkS".to_owned(),
        "B.SilkS".to_owned(),
        "Edge.Cuts".to_owned(),
    ];
    assert(texts(r@) =~= default_layers());
    r
}

// ─── Laws ─────────────────────────────────────────────────────────────────────

/// The name that stands for a format stands for itself.
pub proof fn law_formats_are_settled(name: Seq<char>)
    ensures
        netlist_format_of(netlist_format_of(name)) == netlist_format_of(name),
        model_format_of(name) matches Some(what) ==> model_format_of(what) == Some(what),
{
    reveal_strlit("kicad");
    reveal_strlit("kicadsexpr");
    reveal_strlit("sexp");
    reveal_strlit("xml");
    reveal_strlit("kicadxml");
    reveal_strlit("orcad");
    reveal_strlit("orcadpcb2");
    reveal_strlit("step");
    reveal_strlit("stp");
    reveal_strlit("vrml");
    reveal_strlit("wrl");
    reveal_strlit("glb");
    reveal_strlit("gltf");
    reveal_strlit("3dpdf");
    reveal_strlit("pdf3d");
    assert("kicadxml"@.len() == 8 && "orcadpcb2"@.len() == 9 && "kicad"@.len() == 5);
    assert("kicadsexpr"@.len() == 10 && "sexp"@.len() == 4 && "xml"@.len() == 3);
    assert("step"@[0] == 's' && "stp"@[0] == 's' && "vrml"@[0] == 'v' && "wrl"@[0] == 'w');
    assert("glb"@[0] == 'g' && "gltf"@[0] == 'g' && "3dpdf"@[0] == '3' && "pdf3d"@[0] == 'p');
}

/// The case in which an ASCII name is written does not matter: in lower case it names
/// the same format.
pub proof fn law_case_does_not_matter(name: Seq<char>)
    requires
        is_ascii_text(name),
    ensures
        lower_text(lower_text(name)) == lower_text(name),
{
    let lower = lower_text(name);
    assert forall|i: int| 0 <= i < lower.len() implies #[trigger] lower[i] <= '\u{7f}'
        && ascii_lower(lower[i]) == lower[i] by {
        assert(name[i] <= '\u{7f}');
    }
    assert(lower_text(lower) =~= lower);
}

/// Each layer has a flag of its own, directly before it, in the order of the layers.
pub proof fn law_each_layer_has_its_flag(layers: Seq<Seq<char>>, i: int)
    ensures
        layer_flags(layers).len() == 2 * layers.len(),
        0 <= i < layers.len() ==> layer_flags(layers)[2 * i] == "--layers"@ && layer_flags(
            layers,
        )[2 * i + 1] == layers[i],
    decreases layers.len(),
{
    if layers.len() > 0 {
        law_each_layer_has_its_flag(layers.drop_last(), i);
    }
}

/// Layers in one text stand in their order with a comma between any two of them, and
/// nothing else is added to them.
pub proof fn law_layers_are_joined(a: Seq<Seq<char>>, b: Seq<Seq<char>>, layer: Seq<char>)
    ensures
        comma_separated(Seq::empty()) == Seq::<char>::empty(),
        comma_separated(seq![layer]) == layer,
        a.len() > 0 && b.len() > 0 ==> comma_separated(a + b) == comma_separated(a) + seq![',']
            + comma_separated(b),
    decreases b.len(),
{
    reveal_strlit(",");
    assert(","@ =~= seq![',']);
    if a.len() > 0 && b.len() > 0 {
        let whole = a + b;
        assert(whole.drop_last() =~= a + b.drop_last());
        assert(whole.last() == b.last());
        if b.len() == 1 {
            assert(whole.drop_last() =~= a);
            assert(comma_separated(b) == b[0]);
        } else {
            law_layers_are_joined(a, b.drop_last(), layer);
            assert(comma_separated(whole) =~= comma_separated(a) + seq![','] + comma_separated(b));
        }
    }
}

/// A check of a board writes its report where it was told to, as JSON, has each of its two
/// flags just where that was asked for, and ends with the board.
pub proof fn law_words_of_a_board_check(
    pcb: Seq<char>,
    report: Seq<char>,
    refill_zones: bool,
    schematic_parity: bool,
)
    ensures
        ({
            let words = drc_words(pcb, report, refill_zones, schematic_parity);
            &&& words.take(6) == seq!["pcb"@, "drc"@, "--output"@, report, "--format"@, "json"@]
            &&& words.last() == pcb
            &&& words.len() == 7 + (if refill_zones {
                1int
            } else {
                0
            }) + (if schematic_parity {
                1int
            } else {
                0
            })
            &&& schematic_parity ==> words[6] == "--schematic-parity"@
            &&& refill_zones ==> words[words.len() - 2] == "--refill-zones"@
        }),
{
    let words = drc_words(pcb, report, refill_zones, schematic_parity);
    assert(words.take(6) =~= seq!["pcb"@, "drc"@, "--output"@, report, "--format"@, "json"@]);
}

/// An export names what it exports, writes where it was told to and ends with the file it
/// exports, whatever it is asked for besides.
pub proof fn law_words_of_an_export(
    tool: Seq<char>,
    what: Seq<char>,
    output: Seq<char>,
    input: Seq<char>,
    format: Seq<char>,
    layers: Seq<Seq<char>>,
    compress: bool,
)
    ensures
        export_words(tool, what, output, input).take(5) == seq![
            tool,
            "export"@,
            what,
            "--output"@,
            output,
        ],
        export_words(tool, what, output, input).len() == 6,
        export_words(tool, what, output, input)[5] == input,
        netlist_words(input, output, format).take(5) == seq![
            "sch"@,
            "export"@,
            "netlist"@,
            "--output"@,
            output,
        ],
        netlist_words(input, output, format).skip(5) == seq!["--format"@, format, input],
        layered_words(what, output, layers, input).take(5) == seq![
            "pcb"@,
            "export"@,
            what,
            "--output"@,
            output,
        ],
        layered_words(what, output, layers, input).skip(5) == layer_flags(layers).push(input),
        ipc2581_words(input, output, format, compress).take(7) == seq![
            "pcb"@,
            "export"@,
            "ipc2581"@,
            "--output"@,
            output,
            "--units"@,
            format,
        ],
        compress ==> ipc2581_words(input, output, format, compress).skip(7) == seq![
            "--compress"@,
            input,
        ],
        !compress ==> ipc2581_words(input, output, format, compress).skip(7) == seq![input],
{
    assert(export_words(tool, what, output, input).take(5) =~= seq![
        tool,
        "export"@,
        what,
        "--output"@,
        output,
    ]);
    let words = netlist_words(input, output, format);
    assert(words.take(5) =~= seq!["sch"@, "export"@, "netlist"@, "--output"@, output]);
    assert(words.skip(5) =~= seq!["--format"@, format, input]);
    let words = layered_words(what, output, layers, input);
    assert(words.take(5) =~= seq!["pcb"@, "export"@, what, "--output"@, output]);
    assert(words.skip(5) =~= layer_flags(layers).push(input));
    let words = ipc2581_words(input, output, format, compress);
    assert(words.take(7) =~= seq![
        "pcb"@,
        "export"@,
        "ipc2581"@,
        "--output"@,
        output,
        "--units"@,
        format,
    ]);
    assert(compress ==> words.skip(7) =~= seq!["--compress"@, input]);
    assert(!compress ==> words.skip(7) =~= seq![input]);
}

/// A DXF export has its layers in one argument, where there are any, and asks for one file
/// for each.
pub proof fn law_words_of_a_dxf_export(
    pcb: Seq<char>,
    output_dir: Seq<char>,
    layers: Seq<Seq<char>>,
)
    ensures
        ({
            let words = dxf_words(pcb, output_dir, layers);
            &&& words.take(5) == seq!["pcb"@, "export"@, "dxf"@, "--output"@, output_dir]
            &&& comma_separated(layers).len() > 0 ==> words.skip(5) == seq![
                "--layers"@,
                comma_separated(layers),
                "--mode-multi"@,
                pcb,
            ]
            &&& comma_separated(layers).len() == 0 ==> words.skip(5) == seq!["--mode-multi"@, pcb]
        }),
{
    let words = dxf_words(pcb, output_dir, layers);
    assert(words.take(5) =~= seq!["pcb"@, "export"@, "dxf"@, "--output"@, output_dir]);
    if comma_separated(layers).len() > 0 {
        assert(words.skip(5) =~= seq![
            "--layers"@,
            comma_separated(layers),
            "--mode-multi"@,
            pcb,
        ]);
    } else {
        assert(words.skip(5) =~= seq!["--mode-multi"@, pcb]);
    }
}

proof fn lemma_texts_among(items: Seq<JsonTree>)
    ensures
        texts_among(items) == items.filter(|v: JsonTree| v is Text).map_values(
            |v: JsonTree| v->Text_0,
        ),
    decreases items.len(),
{
    reveal(Seq::filter);
    if items.len() > 0 {
        lemma_texts_among(items.drop_last());
    }
    assert(texts_among(items) =~= items.filter(|v: JsonTree| v is Text).map_values(
        |v: JsonTree| v->Text_0,
    ));
}

/// The texts of a list are all its items that are texts, in their order.
pub proof fn law_texts_of_a_list(items: Seq<JsonTree>)
    ensures
        texts_among(items) == items.filter(|v: JsonTree| v is Text).map_values(
            |v: JsonTree| v->Text_0,
        ),
{
    lemma_texts_among(items);
}

/// A board is shown with the layers that are asked for, and with the usual ones where none
/// is.
pub proof fn law_layers_that_are_shown(args: JsonTree)
    ensures
        args.get("layers"@) matches Some(JsonTree::Array(items)) ==> {
            let asked = items.filter(|v: JsonTree| v is Text).map_values(|v: JsonTree| v->Text_0);
            &&& asked.len() > 0 ==> view_layers_of(args) == asked
            &&& asked.len() == 0 ==> view_layers_of(args) == default_layers()
        },
        !(args.get("layers"@) matches Some(JsonTree::Array(_))) ==> view_layers_of(args)
            == default_layers(),
        default_layers() == seq!["F.Cu"@, "B.Cu"@, "F.SilkS"@, "B.SilkS"@, "Edge.Cuts"@],
{
    if let Some(JsonTree::Array(items)) = args.get("layers"@) {
        lemma_texts_among(items);
    }
}

/// Which names stand for which netlist format; every other name stands for itself.
pub proof fn law_names_of_netlist_formats(name: Seq<char>)
    ensures
        name == "kicad"@ || name == "sexp"@ || name == "kicadsexpr"@ ==> netlist_format_of(name)
            == "kicadsexpr"@,
        name == "xml"@ || name == "kicadxml"@ ==> netlist_format_of(name) == "kicadxml"@,
        name == "orcad"@ || name == "orcadpcb2"@ ==> netlist_format_of(name) == "orcadpcb2"@,
        netlist_format_of(name) != name ==> name == "kicad"@ || name == "sexp"@ || name == "xml"@
            || name == "orcad"@,
{
    reveal_strlit("kicad");
    reveal_strlit("kicadsexpr");
    reveal_strlit("sexp");
    reveal_strlit("xml");
    reveal_strlit("kicadxml");
    reveal_strlit("orcad");
    reveal_strlit("orcadpcb2");
    assert("kicadxml"@.len() == 8 && "orcadpcb2"@.len() == 9 && "kicad"@.len() == 5);
    assert("kicadsexpr"@.len() == 10 && "sexp"@.len() == 4 && "xml"@.len() == 3);
    assert("orcad"@.len() == 5 && "orcad"@[0] == 'o' && "kicad"@[0] == 'k');
}

/// Which names stand for which 3D format; no other name stands for one.
pub proof fn law_names_of_3d_formats(name: Seq<char>)
    ensures
        name == "step"@ || name == "stp"@ <==> model_format_of(name) == Some("step"@),
        name == "vrml"@ || name == "wrl"@ <==> model_format_of(name) == Some("vrml"@),
        name == "glb"@ || name == "gltf"@ <==> model_format_of(name) == Some("glb"@),
        name == "3dpdf"@ || name == "pdf3d"@ <==> model_format_of(name) == Some("3dpdf"@),
        name == "brep"@ || name == "stl"@ || name == "ply"@ || name == "stpz"@ || name == "u3d"@
            || name == "xao"@ ==> model_format_of(name) == Some(name),
        model_format_of(name) matches Some(what) ==> what == name || name == "stp"@ || name
            == "wrl"@ || name == "gltf"@ || name == "pdf3d"@,
        model_format_of(name) is None <==> !(name == "step"@ || name == "stp"@ || name == "vrml"@
            || name == "wrl"@ || name == "glb"@ || name == "gltf"@ || name == "3dpdf"@ || name
            == "pdf3d"@ || name == "brep"@ || name == "stl"@ || name == "ply"@ || name == "stpz"@
            || name == "u3d"@ || name == "xao"@),
{
    reveal_strlit("step");
    reveal_strlit("stp");
    reveal_strlit("vrml");
    reveal_strlit("wrl");
    reveal_strlit("glb");
    reveal_strlit("gltf");
    reveal_strlit("3dpdf");
    reveal_strlit("pdf3d");
    reveal_strlit("brep");
    reveal_strlit("stl");
    reveal_strlit("ply");
    reveal_strlit("stpz");
    reveal_strlit("u3d");
    reveal_strlit("xao");
    assert("step"@[0] == 's' && "step"@[1] == 't' && "step"@[2] == 'e' && "step"@.len() == 4);
    assert("stp"@.len() == 3 && "stl"@.len() == 3 && "stpz"@[2] == 'p');
    assert("vrml"@[0] == 'v' && "wrl"@[0] == 'w' && "glb"@[0] == 'g' && "gltf"@[0] == 'g');
    assert("3dpdf"@[0] == '3' && "pdf3d"@[0] == 'p' && "brep"@[0] == 'b' && "ply"@[0] == 'p');
    assert("u3d"@[0] == 'u' && "xao"@[0] == 'x' && "glb"@.len() == 3 && "gltf"@.len() == 4);
    assert("stl"@[2] == 'l' && "stp"@[2] == 'p' && "ply"@.len() == 3 && "pdf3d"@.len() == 5);
}

/// In lower case a text keeps its length, and every capital of ASCII becomes its small
/// letter; nothing else changes.
pub proof fn law_lower_case(t: Seq<char>, i: int)
    requires
        is_ascii_text(t),
        0 <= i < t.len(),
    ensures
        lower_text(t).len() == t.len(),
        'A' <= t[i] <= 'Z' ==> lower_text(t)[i] as int == t[i] as int + 32,
        !('A' <= t[i] <= 'Z') ==> lower_text(t)[i] == t[i],
{
}

} // verus!
