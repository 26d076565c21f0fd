//! Edits of a board file that insert text: nets, copper zones, netclasses and the
//! nets of a netclass.
use vstd::prelude::*;
use crate::blocks::{law_lists_are_balanced_blocks, lemma_block_end};
use crate::decimal::{
    decimal, is_digit, law_written_number_reads_back, lemma_decimal_digits, parse_i32, read_i32,
    signed_decimal, signed_decimal_text,
};
use crate::edits::{
    is_gap, law_insertion_adds_an_item, law_stretch_is_of_the_node, node_at, stretch_of,
};
use crate::json::{float_text, write_float, Json, JsonTree};
use crate::netclass::{
    has_classes, project_has_netclasses, upsert_project_netclass, upserted, ProjectUpsert,
};
use crate::netlist::{board_of, Board};
use crate::padnet::{
    code_of, coded_entry, entry_tree, find_code, in_table, is_bare, is_plain, law_entry_reads_back,
    lemma_code_of_prefix,
};
use crate::sexp::{
    is_delimiter, is_space, named_items, parse_sexp, read_node, read_sexp, skip_space, Sexp,
};
use crate::text::{
    chars_of, count_from, count_matches, find, find_from, find_in, has_match, is_last_match,
    lemma_find_in, lemma_first_is_found, lemma_last_is_found, matches_at, occurs, quoted, rfind_in,
    rfind_to, splice, spliced, text_of, utf8_width, width_of,
};

verus! {

/// Where text is inserted that is to stand last in the file: before its last closing
/// parenthesis, or at its end where it has none.
pub open spec fn last_place(s: Seq<char>) -> int {
    match rfind_in(s, ")"@, s.len() as int) {
        Some(i) => i,
        None => s.len() as int,
    }
}

fn find_last_place(s: &Vec<char>) -> (r: usize)
    ensures
        r == last_place(s@),
        r <= s@.len(),
{
    let close = chars_of(")");
    match rfind_to(s, &close, s.len()) {
        Some(i) => i,
        None => s.len(),
    }
}

// ─── Nets ─────────────────────────────────────────────────────────────────────

/// The number of the next net: how many nets the file mentions.
pub open spec fn next_net_id(s: Seq<char>) -> i32 {
    count_from(s, "(net "@, 0) as i32
}

/// The line that declares a net.
pub open spec fn net_line(id: int, name: Seq<char>) -> Seq<char> {
    "\n  (net "@ + signed_decimal(id) + " \""@ + name + "\")"@
}

/// The file with a net added.
pub open spec fn net_added(s: Seq<char>, name: Seq<char>) -> Seq<char> {
    splice(s, last_place(s), last_place(s), net_line(next_net_id(s) as int, name))
}

/// Adds a net to the text of a board. Gives its number and the new text.
pub fn add_net(content: &str, net_name: &str) -> (r: (i32, String))
    ensures
        r.0 == next_net_id(content@),
        r.1@ == net_added(content@, net_name@),
{
    let s = chars_of(content);
    proof {
        reveal_strlit("(net ");
    }
    let opening = chars_of("(net ");
    let count = count_matches(&s, &opening);
    let id = #[verifier::truncate] (count as i32);
    let mut line = "\n  (net ".to_owned();
    line.append(signed_decimal_text(id).as_str());
    line.append(" \"");
    line.append(net_name);
    line.append("\")");
    let place = find_last_place(&s);
    (id, spliced(&s, place, place, line.as_str()))
}

/// The code under which a board declares a net in its net table, where that is a number.
pub open spec fn declared_id(s: Seq<char>, name: Seq<char>) -> Option<int> {
    match read_sexp(s) {
        Some(tree) => match code_of(tree.find_all("net"@), name) {
            Some(code) => read_i32(code),
            None => None,
        },
        None => None,
    }
}

/// How the name of a net stands at the end of an entry.
pub open spec fn name_pattern(name: Seq<char>) -> Seq<char> {
    " \""@ + name + "\")"@
}

/// The position in `s[i..to]` that lies `bytes` bytes of UTF-8 further on, where a
/// character begins there.
pub open spec fn bytes_on(s: Seq<char>, i: int, to: int, bytes: int) -> Option<int>
    decreases to - i,
{
    if bytes == 0 {
        Some(i)
    } else if bytes < 0 || i >= to {
        None
    } else {
        bytes_on(s, i + 1, to, bytes - utf8_width(s[i]))
    }
}

/// The number that a text writes, or zero where it writes none.
pub open spec fn number_or_zero(t: Seq<char>) -> int {
    match read_i32(t) {
        Some(n) => n,
        None => 0,
    }
}

/// The number in the last net entry that opens before `pos`, where the name of a net follows:
/// what stands before the first space, or all there is. Where no entry opens, it is the number
/// before the first space from the sixth byte of the file on, and zero where there is no space.
pub open spec fn mentioned_id(s: Seq<char>, pos: int) -> int {
    match rfind_in(s, "(net "@, pos) {
        Some(i) => match find_in(s, " "@, i + 5, pos) {
            Some(end) => number_or_zero(s.subrange(i + 5, end)),
            None => number_or_zero(s.subrange(i + 5, pos)),
        },
        None => match bytes_on(s, 0, pos, 5) {
            Some(start) => match find_in(s, " "@, start, pos) {
                Some(end) => number_or_zero(s.subrange(start, end)),
                None => 0,
            },
            None => 0,
        },
    }
}

/// The code of a net: the one that the board declares or, where it declares none, the one
/// that the first mention of the net gives. It is zero where there is neither.
pub open spec fn net_id(s: Seq<char>, name: Seq<char>) -> int {
    match declared_id(s, name) {
        Some(n) => n,
        None => match find(s, name_pattern(name)) {
            Some(pos) => mentioned_id(s, pos),
            None => 0,
        },
    }
}

/// Can the code of a net be looked for? It cannot where the board does not declare the net,
/// and its name stands too near the beginning of a file that has no net entry before it.
pub open spec fn net_id_readable(s: Seq<char>, name: Seq<char>) -> bool {
    ||| declared_id(s, name) is Some
    ||| match find(s, name_pattern(name)) {
        Some(pos) => rfind_in(s, "(net "@, pos) is Some || bytes_on(s, 0, pos, 5) is Some,
        None => true,
    }
}

fn find_declared_id(content: &str, net_name: &str) -> (r: Option<i32>)
    ensures
        match r {
            Some(n) => declared_id(content@, net_name@) == Some(n as int),
            None => declared_id(content@, net_name@) is None,
        },
{
    let tree = match parse_sexp(content) {
        Ok(t) => t,
        Err(_) => {
            return None;
        },
    };
    match find_code(&tree.find_all("net"), net_name) {
        Some(code) => {
            let c = chars_of(code.as_str());
            assert(c@.subrange(0, c@.len() as int) =~= code@);
            parse_i32(&c, 0, c.len())
        },
        None => None,
    }
}

fn find_bytes_on(s: &Vec<char>, to: usize, bytes: usize) -> (r: Option<usize>)
    requires
        to <= s@.len(),
    ensures
        match r {
            Some(i) => bytes_on(s@, 0, to as int, bytes as int) == Some(i as int) && i <= to,
            None => bytes_on(s@, 0, to as int, bytes as int) is None,
        },
{
    let mut i: usize = 0;
    let mut left: usize = bytes;
    while left > 0
        invariant
            i <= to <= s@.len(),
            bytes_on(s@, 0, to as int, bytes as int) == bytes_on(
                s@,
                i as int,
                to as int,
                left as int,
            ),
        decreases left,
    {
        if i >= to {
            return None;
        }
        let width = width_of(s[i]);
        if width > left {
            assert(bytes_on(s@, i + 1, to as int, left - width) is None);
            return None;
        }
        left = left - width;
        i = i + 1;
    }
    Some(i)
}

fn read_number(s: &Vec<char>, from: usize, to: usize) -> (r: i32)
    requires
        from <= to <= s@.len(),
    ensures
        r == number_or_zero(s@.subrange(from as int, to as int)),
{
    match parse_i32(s, from, to) {
        Some(n) => n,
        None => 0,
    }
}

/// Finds the number that goes with the mention of a net. `None` is for a mention too near the
/// beginning of the file.
fn find_mentioned_id(s: &Vec<char>, pos: usize) -> (r: Option<i32>)
    requires
        pos <= s@.len(),
    ensures
        match r {
            Some(n) => n == mentioned_id(s@, pos as int) && (rfind_in(s@, "(net "@, pos as int)
                is Some || bytes_on(s@, 0, pos as int, 5) is Some),
            None => rfind_in(s@, "(net "@, pos as int) is None && bytes_on(
                s@,
                0,
                pos as int,
                5,
            ) is None,
        },
{
    let opening = chars_of("(net ");
    let space = chars_of(" ");
    proof {
        reveal_strlit("(net ");
        reveal_strlit(" ");
    }
    match rfind_to(s, &opening, pos) {
        Some(i) => {
            let start: usize = i + 5;
            proof {
                lemma_find_in(s@, space@, start as int, pos as int);
            }
            match find_from(s, &space, start, pos) {
                Some(end) => Some(read_number(s, start, end)),
                None => Some(read_number(s, start, pos)),
            }
        },
        None => match find_bytes_on(s, pos, 5) {
            Some(start) => {
                proof {
                    lemma_find_in(s@, space@, start as int, pos as int);
                }
                match find_from(s, &space, start, pos) {
                    Some(end) => Some(read_number(s, start, end)),
                    None => Some(0),
                }
            },
            None => None,
        },
    }
}

/// Looks for the code of a net. `None` is for a net that cannot be looked for.
fn try_net_id(content: &str, net_name: &str) -> (r: Option<i32>)
    ensures
        match r {
            Some(n) => net_id_readable(content@, net_name@) && n == net_id(content@, net_name@),
            None => !net_id_readable(content@, net_name@),
        },
{
    if let Some(n) = find_declared_id(content, net_name) {
        return Some(n);
    }
    let s = chars_of(content);
    let pattern = chars_of(quoted(" \"", net_name, "\")").as_str());
    proof {
        lemma_find_in(s@, pattern@, 0, s@.len() as int);
    }
    match find_from(&s, &pattern, 0, s.len()) {
        Some(pos) => find_mentioned_id(&s, pos),
        None => Some(0),
    }
}

/// Can the code of a net be looked for?
pub fn net_id_is_readable(content: &str, net_name: &str) -> (r: bool)
    ensures
        r == net_id_readable(content@, net_name@),
{
    try_net_id(content, net_name).is_some()
}

/// The code of a net: the one that the board declares or, where it declares none, the one
/// that the first mention of the net gives. It is zero where there is neither.
pub fn find_net_id(content: &str, net_name: &str) -> (r: i32)
    requires
        net_id_readable(content@, net_name@),
    ensures
        r == net_id(content@, net_name@),
{
    match try_net_id(content, net_name) {
        Some(n) => n,
        None => vstd::pervasive::unreached(),
    }
}

// ─── Copper zones ─────────────────────────────────────────────────────────────

/// The corners of a zone, one per line.
pub open spec fn points_text(pts: Seq<(serde_json::Number, serde_json::Number)>) -> Seq<char>
    decreases pts.len(),
{
    if pts.len() == 0 {
        Seq::empty()
    } else {
        points_text(pts.drop_last()) + "\n      (xy "@ + float_text(pts.last().0) + " "@
            + float_text(pts.last().1) + ")"@
    }
}

/// The text of a copper zone.
pub open spec fn zone_text(
    net_id: int,
    net_name: Seq<char>,
    layer: Seq<char>,
    clearance: serde_json::Number,
    min_width: serde_json::Number,
    pts: Seq<(serde_json::Number, serde_json::Number)>,
    uuid: Seq<char>,
) -> Seq<char> {
    "\n  (zone (net "@ + signed_decimal(net_id) + ") (net_name \""@ + net_name + "\") (layer \""@
        + layer + "\") (uuid \""@ + uuid
        + "\")\n    (hatch edge 0.508)\n    (connect_pads (clearance "@ + float_text(clearance)
        + "))\n    (min_thickness "@ + float_text(min_width)
        + ")\n    (fill yes)\n    (polygon (pts"@ + points_text(pts) + "\n    ))\n  )"@
}

fn append_points(out: &mut String, pts: &Vec<(serde_json::Number, serde_json::Number)>)
    ensures
        final(out)@ == old(out)@ + points_text(pts@),
{
    let ghost before = out@;
    let mut i: usize = 0;
    assert(before + points_text(pts@.take(0)) =~= before);
    while i < pts.len()
        invariant
            i <= pts@.len(),
            out@ == before + points_text(pts@.take(i as int)),
        decreases pts@.len() - i,
    {
        assert(pts@.take(i + 1).drop_last() =~= pts@.take(i as int));
        out.append("\n      (xy ");
        out.append(write_float(&pts[i].0).as_str());
        out.append(" ");
        out.append(write_float(&pts[i].1).as_str());
        out.append(")");
        assert(out@ =~= before + points_text(pts@.take(i + 1)));
        i = i + 1;
    }
    assert(pts@.take(pts@.len() as int) =~= pts@);
}

/// The text of a copper zone that is called `uuid`.
pub fn format_zone(
    net_id: i32,
    net_name: &str,
    layer: &str,
    clearance: &serde_json::Number,
    min_width: &serde_json::Number,
    pts: &Vec<(serde_json::Number, serde_json::Number)>,
    uuid: &str,
) -> (r: String)
    ensures
        r@ == zone_text(net_id as int, net_name@, layer@, *clearance, *min_width, pts@, uuid@),
{
    let mut out = "\n  (zone (net ".to_owned();
    out.append(signed_decimal_text(net_id).as_str());
    out.append(") (net_name \"");
    out.append(net_name);
    out.append("\") (layer \"");
    out.append(layer);
    out.append("\") (uuid \"");
    out.append(uuid);
    out.append("\")\n    (hatch edge 0.508)\n    (connect_pads (clearance ");
    out.append(write_float(clearance).as_str());
    out.append("))\n    (min_thickness ");
    out.append(write_float(min_width).as_str());
    out.append(")\n    (fill yes)\n    (polygon (pts");
    append_points(&mut out, pts);
    out.append("\n    ))\n  )");
    out
}

/// The file with a copper zone added.
pub open spec fn zone_added(
    s: Seq<char>,
    net_name: Seq<char>,
    layer: Seq<char>,
    clearance: serde_json::Number,
    min_width: serde_json::Number,
    pts: Seq<(serde_json::Number, serde_json::Number)>,
    uuid: Seq<char>,
) -> Seq<char> {
    splice(
        s,
        last_place(s),
        last_place(s),
        zone_text(net_id(s, net_name), net_name, layer, clearance, min_width, pts, uuid),
    )
}

/// Adds a copper zone that is called `uuid` to the text of a board, on a net of the board.
pub fn add_copper_pour(
    content: &str,
    net_name: &str,
    layer: &str,
    clearance: &serde_json::Number,
    min_width: &serde_json::Number,
    pts: &Vec<(serde_json::Number, serde_json::Number)>,
    uuid: &str,
) -> (r: String)
    requires
        net_id_readable(content@, net_name@),
    ensures
        r@ == zone_added(content@, net_name@, layer@, *clearance, *min_width, pts@, uuid@),
{
    let id = find_net_id(content, net_name);
    let zone = format_zone(id, net_name, layer, clearance, min_width, pts, uuid);
    let s = chars_of(content);
    let place = find_last_place(&s);
    spliced(&s, place, place, zone.as_str())
}

// ─── Netclasses of a board ────────────────────────────────────────────────────

/// An argument written in decimal, or a default where it is not given.
pub open spec fn argument_text(args: JsonTree, arg: Seq<char>, default: Seq<char>) -> Seq<char> {
    match args.get_float(arg) {
        Some(n) => float_text(n),
        None => default,
    }
}

/// The text of a netclass in a board file.
pub open spec fn netclass_text(name: Seq<char>, args: JsonTree) -> Seq<char> {
    "\n      (netclass \""@ + name + "\"\n        (clearance "@ + argument_text(
        args,
        "clearance"@,
        "0.2"@,
    ) + ")\n        (trace_width "@ + argument_text(args, "trace_width"@, "0.25"@)
        + ")\n        (via_drill "@ + argument_text(args, "via_drill"@, "0.4"@)
        + ")\n        (via_diameter "@ + argument_text(args, "via_diameter"@, "0.8"@)
        + ")\n      )"@
}

/// Where a netclass is inserted: last in the file where there is no list of netclasses. Where
/// there is one, before the first closing parenthesis after its opening that stands on a line
/// of its own, four spaces in; where none does, before the first one at all, be it that of an
/// element of the list; and where there is none either, before the last byte of the file,
/// unless no character begins there.
pub open spec fn netclass_place(s: Seq<char>) -> Option<int> {
    let n = s.len() as int;
    match find(s, "(net_classes"@) {
        Some(start) => match find_in(s, "\n    )"@, start, n) {
            Some(i) => Some(i),
            None => match find_in(s, ")"@, start, n) {
                Some(i) => Some(i),
                None => if utf8_width(s.last()) == 1 {
                    Some(n - 1)
                } else {
                    None
                },
            },
        },
        None => Some(last_place(s)),
    }
}

/// Where a netclass is inserted in the text of a board.
pub fn find_netclass_place(s: &Vec<char>) -> (r: Option<usize>)
    ensures
        match r {
            Some(i) => netclass_place(s@) == Some(i as int) && i <= s@.len(),
            None => netclass_place(s@) is None,
        },
{
    let list = chars_of("(net_classes");
    proof {
        reveal_strlit("(net_classes");
        lemma_find_in(s@, list@, 0, s@.len() as int);
    }
    let start = match find_from(s, &list, 0, s.len()) {
        Some(start) => start,
        None => {
            return Some(find_last_place(s));
        },
    };
    let list_end = chars_of("\n    )");
    let close = chars_of(")");
    proof {
        lemma_find_in(s@, list_end@, start as int, s@.len() as int);
        lemma_find_in(s@, close@, start as int, s@.len() as int);
    }
    match find_from(s, &list_end, start, s.len()) {
        Some(i) => Some(i),
        None => match find_from(s, &close, start, s.len()) {
            Some(i) => Some(i),
            None => {
                let last = s.len() - 1;
                if width_of(s[last]) == 1 {
                    Some(last)
                } else {
                    None
                }
            },
        },
    }
}

fn argument_or_text(args: &Json, arg: &str, default: &str) -> (r: String)
    ensures
        r@ == argument_text(args@, arg@, default@),
{
    match args.get_float(arg) {
        Some(n) => write_float(&n),
        None => default.to_owned(),
    }
}

fn format_netclass(name: &str, args: &Json) -> (r: String)
    ensures
        r@ == netclass_text(name@, args@),
{
    let mut out = quoted("\n      (netclass \"", name, "\"\n        (clearance ");
    out.append(argument_or_text(args, "clearance", "0.2").as_str());
    out.append(")\n        (trace_width ");
    out.append(argument_or_text(args, "trace_width", "0.25").as_str());
    out.append(")\n        (via_drill ");
    out.append(argument_or_text(args, "via_drill", "0.4").as_str());
    out.append(")\n        (via_diameter ");
    out.append(argument_or_text(args, "via_diameter", "0.8").as_str());
    out.append(")\n      )");
    out
}

/// Inserts a netclass into the text of a board.
pub fn insert_netclass(content: &str, name: &str, args: &Json) -> (r: String)
    requires
        netclass_place(content@) is Some,
    ensures
        r@ == splice(
            content@,
            netclass_place(content@)->0,
            netclass_place(content@)->0,
            netclass_text(name@, args@),
        ),
{
    let s = chars_of(content);
    match find_netclass_place(&s) {
        Some(place) => spliced(&s, place, place, format_netclass(name, args).as_str()),
        None => vstd::pervasive::unreached(),
    }
}

/// Are the netclasses of a board kept in its project? They are where the project has
/// a list of them, unless the board itself has netclasses.
pub open spec fn kept_in_project(board: Seq<char>, project: Option<Seq<char>>) -> bool {
    !occurs(board, "(net_class "@) && (project matches Some(p) && has_classes(p))
}

/// What was written to create a netclass.
#[derive(Debug)]
pub enum NetclassWrite {
    /// The project file, with the netclass created or brought up to date.
    Project(ProjectUpsert),
    /// The text of the board, with the netclass inserted.
    Board(String),
}

/// Creates a netclass, or brings it up to date: in the project, where the netclasses
/// of the board are kept there, and in the board otherwise. `None` is for a board
/// without a place for a netclass.
pub fn create_netclass(board: &str, project: Option<&str>, name: &str, args: &Json) -> (r: Option<
    NetclassWrite,
>)
    ensures
        ({
            let p = match project {
                Some(t) => Some(t@),
                None => None,
            };
            match r {
                Some(NetclassWrite::Project(u)) => kept_in_project(board@, p) && upserted(
                    u,
                    p->0,
                    name@,
                    args@,
                ),
                Some(NetclassWrite::Board(t)) => !kept_in_project(board@, p) && netclass_place(
                    board@,
                ) is Some && t@ == splice(
                    board@,
                    netclass_place(board@)->0,
                    netclass_place(board@)->0,
                    netclass_text(name@, args@),
                ),
                None => !kept_in_project(board@, p) && netclass_place(board@) is None,
            }
        }),
{
    let s = chars_of(board);
    let legacy = chars_of("(net_class ");
    if !has_match(&s, &legacy) {
        if let Some(p) = project {
            if project_has_netclasses(p) {
                return match upsert_project_netclass(p, name, args) {
                    Ok(u) => Some(NetclassWrite::Project(u)),
                    Err(_) => vstd::pervasive::unreached(),
                };
            }
        }
    }
    if find_netclass_place(&s).is_some() {
        Some(NetclassWrite::Board(insert_netclass(board, name, args)))
    } else {
        None
    }
}

// ─── Nets of a netclass ───────────────────────────────────────────────────────

/// How a netclass of a name begins.
pub open spec fn class_pattern(name: Seq<char>) -> Seq<char> {
    "(netclass \""@ + name + "\""@
}

/// How a net of a netclass is written.
pub open spec fn member_text(net: Seq<char>) -> Seq<char> {
    "(net \""@ + net + "\")"@
}

/// Where the parenthesis stands that closes the block that is open `depth` levels
/// deep at position `i`. Every parenthesis counts, in a quoted text too.
pub open spec fn paren_close(s: Seq<char>, i: int, depth: nat) -> Option<int>
    decreases s.len() - i,
{
    if !(0 <= i < s.len()) {
        None
    } else if s[i] == '(' {
        paren_close(s, i + 1, depth + 1)
    } else if s[i] == ')' {
        if depth <= 1 {
            Some(i)
        } else {
            paren_close(s, i + 1, (depth - 1) as nat)
        }
    } else {
        paren_close(s, i + 1, depth)
    }
}

/// Where the block of a netclass that begins at `start` ends; one that is never
/// closed ends where it begins.
pub open spec fn class_end(s: Seq<char>, start: int) -> int {
    match paren_close(s, start, 0) {
        Some(i) => i,
        None => start,
    }
}

/// Why a net was not assigned to a netclass.
#[derive(Debug, Clone, Copy, PartialEq, Eq, Structural)]
pub struct NetclassNotFound;

impl NetclassNotFound {
    /// The error in words.
    pub fn message(self, netclass: &str) -> (r: String)
        ensures
            r@ == "Netclass '"@ + netclass@ + "' not found in board file"@,
    {
        quoted("Netclass '", netclass, "' not found in board file")
    }
}

/// The file with a net assigned to a netclass. `None` is for a net that is assigned to
/// it already.
pub open spec fn net_assigned(s: Seq<char>, net: Seq<char>, class: Seq<char>) -> Result<
    Option<Seq<char>>,
    NetclassNotFound,
> {
    match find(s, class_pattern(class)) {
        None => Err(NetclassNotFound),
        Some(start) => {
            let end = class_end(s, start);
            if occurs(s.subrange(start, end), member_text(net)) {
                Ok(None)
            } else {
                Ok(Some(splice(s, end, end, "\n        "@ + member_text(net))))
            }
        },
    }
}

fn find_paren_close(s: &Vec<char>, start: usize) -> (r: Option<usize>)
    requires
        start < s@.len(),
        s@[start as int] == '(',
    ensures
        match r {
            Some(i) => paren_close(s@, start as int, 0) == Some(i as int) && start < i < s@.len(),
            None => paren_close(s@, start as int, 0) is None,
        },
{
    let len = s.len();
    let mut depth: usize = 1;
    let mut i: usize = start + 1;
    while i < len
        invariant
            start < i <= len == s@.len(),
            1 <= depth <= i,
            paren_close(s@, start as int, 0) == paren_close(s@, i as int, depth as nat),
        decreases s@.len() - i,
    {
        if s[i] == '(' {
            depth = depth + 1;
        } else if s[i] == ')' {
            if depth == 1 {
                return Some(i);
            }
            depth = depth - 1;
        }
        i = i + 1;
    }
    None
}

/// Assigns a net to a netclass in the text of a board. `Ok(None)` is for a net that is
/// assigned to it already.
pub fn assign_net_to_class(content: &str, net_name: &str, netclass: &str) -> (r: Result<
    Option<String>,
    NetclassNotFound,
>)
    ensures
        match r {
            Ok(Some(t)) => net_assigned(content@, net_name@, netclass@) == Ok::<
                Option<Seq<char>>,
                NetclassNotFound,
            >(Some(t@)),
            Ok(None) => net_assigned(content@, net_name@, netclass@) == Ok::<
                Option<Seq<char>>,
                NetclassNotFound,
            >(None),
            Err(e) => net_assigned(content@, net_name@, netclass@) == Err::<
                Option<Seq<char>>,
                NetclassNotFound,
            >(e),
        },
{
    let s = chars_of(content);
    let pattern = chars_of(quoted("(netclass \"", netclass, "\"").as_str());
    proof {
        lemma_find_in(s@, pattern@, 0, s@.len() as int);
        reveal_strlit("(netclass \"");
    }
    let start = match find_from(&s, &pattern, 0, s.len()) {
        Some(start) => start,
        None => {
            return Err(NetclassNotFound);
        },
    };
    proof {
        assert(s@.subrange(start as int, start + pattern@.len())[0] == pattern@[0]);
    }
    let end = match find_paren_close(&s, start) {
        Some(i) => i,
        None => start,
    };
    let block = chars_of(text_of(&s, start, end).as_str());
    let member = quoted("(net \"", net_name, "\")");
    if has_match(&block, &chars_of(member.as_str())) {
        return Ok(None);
    }
    let entry = quoted("\n        ", member.as_str(), "");
    proof {
        reveal_strlit("");
        assert(entry@ =~= "\n        "@ + member_text(net_name@));
    }
    Ok(Some(spliced(&s, end, end, entry.as_str())))
}

// ─── Laws ─────────────────────────────────────────────────────────────────────

/// How many parentheses of `t[i..]` stay open when `open` are open at `i`, where none
/// is closed that was not opened.
pub open spec fn still_open(t: Seq<char>, i: int, open: nat) -> Option<nat>
    decreases t.len() - i,
{
    if !(0 <= i < t.len()) {
        Some(open)
    } else if t[i] == '(' {
        still_open(t, i + 1, open + 1)
    } else if t[i] == ')' {
        if open == 0 {
            None
        } else {
            still_open(t, i + 1, (open - 1) as nat)
        }
    } else {
        still_open(t, i + 1, open)
    }
}

/// Does every parenthesis in `t` have its partner?
pub open spec fn is_balanced(t: Seq<char>) -> bool {
    still_open(t, 0, 0) == Some(0nat)
}

/// The same characters up to `end` lead to the same place.
proof fn lemma_same_beginning(s: Seq<char>, t: Seq<char>, i: int, end: int, depth: nat)
    requires
        0 <= i <= end < s.len(),
        end <= t.len(),
        depth >= 1,
        paren_close(s, i, depth) == Some(end),
        forall|k: int| i <= k < end ==> s[k] == #[trigger] t[k],
    ensures
        paren_close(t, i, depth) == paren_close(t, end, 1),
    decreases end - i,
{
    if i < end {
        if s[i] == '(' {
            lemma_same_beginning(s, t, i + 1, end, depth + 1);
        } else if s[i] == ')' {
            lemma_same_beginning(s, t, i + 1, end, (depth - 1) as nat);
        } else {
            lemma_same_beginning(s, t, i + 1, end, depth);
        }
        assert(t[i] == s[i]);
    } else {
        lemma_close_is_paren(s, i, depth);
    }
}

proof fn lemma_close_is_paren(s: Seq<char>, i: int, depth: nat)
    ensures
        paren_close(s, i, depth) matches Some(end) ==> i <= end < s.len() && s[end] == ')' && (end
            == i ==> depth <= 1),
    decreases s.len() - i,
{
    if 0 <= i < s.len() {
        lemma_close_is_paren(s, i + 1, depth + 1);
        lemma_close_is_paren(s, i + 1, depth);
        if depth > 0 {
            lemma_close_is_paren(s, i + 1, (depth - 1) as nat);
        }
    }
}

/// Characters other than parentheses change nothing.
proof fn lemma_no_parens(s: Seq<char>, i: int, end: int, depth: nat)
    requires
        0 <= i <= end <= s.len(),
        forall|k: int| i <= k < end ==> #[trigger] s[k] != '(' && s[k] != ')',
    ensures
        paren_close(s, i, depth) == paren_close(s, end, depth),
    decreases end - i,
{
    if i < end {
        assert(s[i] != '(' && s[i] != ')');
        lemma_no_parens(s, i + 1, end, depth);
    }
}

/// A text in which every parenthesis has its partner changes nothing.
pub proof fn lemma_balanced(s: Seq<char>, base: int, t: Seq<char>, i: int, open: nat, depth: nat)
    requires
        0 <= base,
        base + t.len() <= s.len(),
        s.subrange(base, base + t.len()) == t,
        0 <= i <= t.len(),
        still_open(t, i, open) == Some(0nat),
        depth >= 1,
    ensures
        paren_close(s, base + i, depth + open) == paren_close(s, base + t.len(), depth),
    decreases t.len() - i,
{
    if i < t.len() {
        assert(s[base + i] == s.subrange(base, base + t.len())[i]);
        if t[i] == '(' {
            lemma_balanced(s, base, t, i + 1, open + 1, depth);
        } else if t[i] == ')' {
            lemma_balanced(s, base, t, i + 1, (open - 1) as nat, depth);
        } else {
            lemma_balanced(s, base, t, i + 1, open, depth);
        }
    }
}

/// An inserted net of a netclass leads back to where it began.
proof fn lemma_member(s: Seq<char>, at: int, net: Seq<char>)
    requires
        0 <= at,
        at + 17 + net.len() <= s.len(),
        s.subrange(at, at + 17 + net.len()) == "\n        "@ + member_text(net),
        is_balanced(net),
    ensures
        paren_close(s, at, 1) == paren_close(s, at + 17 + net.len(), 1),
{
    reveal_strlit("\n        ");
    reveal_strlit("(net \"");
    reveal_strlit("\")");
    let n = 17 + net.len();
    let t = "\n        "@ + member_text(net);
    assert forall|k: int| 0 <= k < n implies s[at + k] == t[k] by {
        assert(s.subrange(at, at + n)[k] == s[at + k]);
    }
    assert forall|k: int| at <= k < at + 9 implies #[trigger] s[k] != '(' && s[k] != ')' by {
        assert(s[at + (k - at)] == t[k - at]);
    }
    lemma_no_parens(s, at, at + 9, 1);
    assert(s[at + 9] == t[9]);
    assert(paren_close(s, at + 9, 1) == paren_close(s, at + 10, 2));
    assert forall|k: int| at + 10 <= k < at + 15 implies #[trigger] s[k] != '(' && s[k] != ')' by {
        assert(s[at + (k - at)] == t[k - at]);
    }
    lemma_no_parens(s, at + 10, at + 15, 2);
    assert(s.subrange(at + 15, at + 15 + net.len()) =~= net) by {
        assert forall|k: int| 0 <= k < net.len() implies s[at + 15 + k] == net[k] by {
            assert(s[at + (15 + k)] == t[15 + k]);
        }
    }
    lemma_balanced(s, at + 15, net, 0, 0, 2);
    assert(s[at + (15 + net.len())] == t[15 + net.len() as int]);
    assert(s[at + (16 + net.len())] == t[16 + net.len() as int]);
    assert(paren_close(s, at + 15 + net.len(), 2) == paren_close(s, at + 16 + net.len(), 2));
}

/// Assigning a net twice does nothing the second time: for a name in which every
/// parenthesis has its partner, and a netclass that is closed after its name, the net
/// is found to be assigned already.
pub proof fn law_assigning_twice(s: Seq<char>, net: Seq<char>, class: Seq<char>)
    requires
        net_assigned(s, net, class) matches Ok(Some(_)),
        is_balanced(net),
        find(s, class_pattern(class)) matches Some(start) && (paren_close(s, start, 0) matches Some(
            end,
        ) && start + class_pattern(class).len() <= end),
    ensures
        net_assigned(net_assigned(s, net, class)->Ok_0->0, net, class) == Ok::<
            Option<Seq<char>>,
            NetclassNotFound,
        >(None),
{
    let pattern = class_pattern(class);
    let start = find(s, pattern)->0;
    let end = paren_close(s, start, 0)->0;
    let entry = "\n        "@ + member_text(net);
    let after = net_assigned(s, net, class)->Ok_0->0;
    reveal_strlit("\n        ");
    reveal_strlit("(net \"");
    reveal_strlit("\")");
    reveal_strlit("(netclass \"");
    lemma_find_in(s, pattern, 0, s.len() as int);
    lemma_close_is_paren(s, start, 0);
    assert(entry.len() == 17 + net.len());
    assert(s.subrange(start, start + pattern.len())[0] == pattern[0]);
    assert(s[start] == '(');
    assert(forall|k: int| 0 <= k < end ==> s[k] == #[trigger] after[k]);
    // The netclass is found where it was.
    assert(after.subrange(start, start + pattern.len()) =~= s.subrange(
        start,
        start + pattern.len(),
    ));
    assert forall|j: int| 0 <= j < start implies !#[trigger] matches_at(after, pattern, j) by {
        assert(!matches_at(s, pattern, j));
        assert(after.subrange(j, j + pattern.len()) =~= s.subrange(j, j + pattern.len()));
    }
    lemma_first_is_found(after, pattern, 0, after.len() as int, start);
    // Its block now ends behind the net.
    lemma_same_beginning(s, after, start + 1, end, 1);
    assert(paren_close(after, start, 0) == paren_close(after, end, 1));
    assert(after.subrange(end, end + 17 + net.len()) =~= entry);
    lemma_member(after, end, net);
    let new_end = end + 17 + net.len();
    assert(after[new_end] == s[end]);
    assert(paren_close(after, new_end, 1) == Some(new_end));
    assert(class_end(after, start) == new_end);
    // The net stands in the block.
    let block = after.subrange(start, new_end);
    let at = end + 9 - start;
    assert(block.subrange(at, at + member_text(net).len()) =~= member_text(net)) by {
        assert forall|k: int| 0 <= k < member_text(net).len() implies block[at + k] == member_text(
            net,
        )[k] by {
            assert(after[end + (9 + k)] == entry[9 + k]);
        }
    }
    assert(matches_at(block, member_text(net), at));
}

/// Adding a net, a zone or a netclass keeps the file to the letter on both sides of
/// what is inserted.
pub proof fn law_insertion_keeps_the_rest(s: Seq<char>, at: int, text: Seq<char>)
    requires
        0 <= at <= s.len(),
    ensures
        splice(s, at, at, text).take(at) == s.take(at),
        splice(s, at, at, text).subrange(at, at + text.len()) == text,
        splice(s, at, at, text).skip(at + text.len()) == s.skip(at),
{
    let after = splice(s, at, at, text);
    assert(after.take(at) =~= s.take(at));
    assert(after.subrange(at, at + text.len()) =~= text);
    assert(after.skip(at + text.len()) =~= s.skip(at));
}

/// The expression that declares a net.
pub open spec fn net_tree(id: int, name: Seq<char>) -> Sexp {
    entry_tree(true, Some(signed_decimal(id)), name)
}

/// Where a board ends: its last closing parenthesis is that of the whole.
pub proof fn lemma_last_place(s: Seq<char>)
    requires
        read_sexp(s) matches Some(Sexp::List(_)),
    ensures
        stretch_of(s, 0, Seq::<nat>::empty()) matches Some((p, q)) && last_place(s) == q - 1,
{
    let path = Seq::<nat>::empty();
    let (tree, end) = read_node(s, 0)->0;
    law_stretch_is_of_the_node(s, 0, path);
    let (p, q) = stretch_of(s, 0, path)->0;
    reveal_strlit(")");
    lemma_list_end(s);
    assert(s.subrange(end - 1, end) =~= ")"@);
    assert(matches_at(s, ")"@, end - 1));
    assert forall|j: int| end - 1 < j <= s.len() - ")"@.len() implies !#[trigger] matches_at(
        s,
        ")"@,
        j,
    ) by {
        lemma_space_to_the_end(s, end, j);
        if matches_at(s, ")"@, j) {
            assert(s.subrange(j, j + 1)[0] == ")"@[0]);
        }
    }
    assert(is_last_match(s, ")"@, s.len() as int, end - 1));
    lemma_last_is_found(s, ")"@, s.len() as int, end - 1);
}

proof fn lemma_list_end(s: Seq<char>)
    requires
        read_node(s, 0) matches Some((Sexp::List(_), _)),
    ensures
        read_node(s, 0) matches Some((_, end)) && 0 < end <= s.len() && s[end - 1] == ')',
{
    let (_, end) = read_node(s, 0)->0;
    let open = skip_space(s, 0);
    law_stretch_is_of_the_node(s, 0, Seq::<nat>::empty());
    assert(s[open] == '(');
    assert(skip_space(s, open) == open);
    law_lists_are_balanced_blocks(s, open);
    lemma_block_end(s, open + 1, 1, false);
}

proof fn lemma_space_to_the_end(s: Seq<char>, i: int, j: int)
    requires
        0 <= i <= j < s.len(),
        skip_space(s, i) == s.len(),
    ensures
        is_space(s[j]),
    decreases j - i,
{
    if i < j {
        lemma_space_to_the_end(s, i + 1, j);
    }
}

/// A number is one word.
pub proof fn lemma_number_is_bare(id: int)
    ensures
        is_bare(signed_decimal(id)),
        signed_decimal(id).len() > 0,
{
    let t = signed_decimal(id);
    if id < 0 {
        lemma_decimal_digits((-id) as nat);
        assert forall|i: int| 0 <= i < t.len() implies !is_delimiter(#[trigger] t[i]) by {
            if i > 0 {
                assert(t[i] == decimal((-id) as nat)[i - 1]);
                assert(is_digit(decimal((-id) as nat)[i - 1]));
            }
        }
    } else {
        lemma_decimal_digits(id as nat);
        assert forall|i: int| 0 <= i < t.len() implies !is_delimiter(#[trigger] t[i]) by {
            assert(is_digit(decimal(id as nat)[i]));
        }
    }
}

/// A net that is added is read back: the new board is the old one with the declaration
/// of the net as its last item.
pub proof fn law_added_net_reads_back(s: Seq<char>, name: Seq<char>)
    requires
        read_sexp(s) matches Some(Sexp::List(_)),
        is_plain(name),
    ensures
        ({
            let items = read_sexp(s)->0.items();
            let net = net_tree(next_net_id(s) as int, name);
            read_sexp(net_added(s, name)) == Some(Sexp::List(items.push(net)))
        }),
{
    let path = Seq::<nat>::empty();
    let id = next_net_id(s) as int;
    let code = Some(signed_decimal(id));
    let tree = read_sexp(s)->0;
    lemma_number_is_bare(id);
    law_entry_reads_back(true, code, name);
    lemma_last_place(s);
    let gap = "\n  "@;
    reveal_strlit("\n  ");
    reveal_strlit("\n  (net ");
    reveal_strlit("(net ");
    assert(is_gap(gap));
    let x = coded_entry(signed_decimal(id), name);
    assert(net_line(id, name) =~= gap + x);
    law_stretch_is_of_the_node(s, 0, path);
    assert(node_at(tree, path) == Some(tree));
    law_insertion_adds_an_item(s, path, gap, x, net_tree(id, name));
}

/// A net that is added is in the net table: the new board numbers its nets, and its
/// table holds that net and all it held before.
pub proof fn law_added_net_is_in_the_table(s: Seq<char>, name: Seq<char>)
    requires
        read_sexp(s) matches Some(Sexp::List(_)),
        is_plain(name),
    ensures
        ({
            let before = board_of(read_sexp(s)->0);
            &&& read_sexp(net_added(s, name)) is Some
            &&& board_of(read_sexp(net_added(s, name))->0) == (Board {
                fps: before.fps,
                uses_codes: true,
                net_table: before.net_table.insert(name),
            })
        }),
{
    law_added_net_reads_back(s, name);
    let items = read_sexp(s)->0.items();
    let net = net_tree(next_net_id(s) as int, name);
    let all = items.push(net);
    assert(all.drop_last() =~= items);
    reveal_strlit("net");
    reveal_strlit("footprint");
    assert("net"@.len() == 3 && "footprint"@.len() == 9);
    assert(net.item_text(0) == Some("net"@));
    assert(!net.is_named("footprint"@));
    let nets = named_items(items, "net"@);
    assert(named_items(all, "net"@) == nets.push(net));
    assert(named_items(all, "footprint"@) == named_items(items, "footprint"@));
    assert(nets.push(net).drop_last() =~= nets);
    assert(nets.push(net)[nets.len() as int].item(2) is Some);
    assert(net.item_text(2) == Some(name));
}

/// A net that is added is found under the number it was given, where the board did not
/// declare it before.
pub proof fn law_added_net_is_found(s: Seq<char>, name: Seq<char>)
    requires
        read_sexp(s) matches Some(Sexp::List(_)),
        is_plain(name),
        !in_table(read_sexp(s)->0.find_all("net"@), name),
    ensures
        net_id(net_added(s, name), name) == next_net_id(s),
{
    law_added_net_reads_back(s, name);
    let id = next_net_id(s) as int;
    let items = read_sexp(s)->0.items();
    let net = net_tree(id, name);
    assert(items.push(net).drop_last() =~= items);
    assert(net.item_text(0) == Some("net"@));
    let nets = named_items(items, "net"@);
    assert(nets.push(net).drop_last() =~= nets);
    assert(net.item_text(2) == Some(name));
    law_written_number_reads_back(id);
}

/// A zone on a net that the board declares carries the code of the net: that of the first
/// declaration of its name.
pub proof fn law_zone_is_on_its_net(
    s: Seq<char>,
    i: int,
    code: int,
    net_name: Seq<char>,
    layer: Seq<char>,
    clearance: serde_json::Number,
    min_width: serde_json::Number,
    pts: Seq<(serde_json::Number, serde_json::Number)>,
    uuid: Seq<char>,
)
    requires
        read_sexp(s) is Some,
        0 <= i < read_sexp(s)->0.find_all("net"@).len(),
        ({
            let nets = read_sexp(s)->0.find_all("net"@);
            &&& nets[i].item_text(2) == Some(net_name)
            &&& nets[i].item_text(1) matches Some(t) && read_i32(t) == Some(code)
            &&& forall|k: int| 0 <= k < i ==> (#[trigger] nets[k]).item_text(2) != Some(net_name)
        }),
    ensures
        zone_added(s, net_name, layer, clearance, min_width, pts, uuid) == splice(
            s,
            last_place(s),
            last_place(s),
            zone_text(code, net_name, layer, clearance, min_width, pts, uuid),
        ),
{
    let nets = read_sexp(s)->0.find_all("net"@);
    let upto = nets.take(i + 1);
    assert(upto[i].item_text(2) == Some(net_name));
    lemma_code_of_prefix(nets, i + 1, net_name);
    assert(upto.drop_last() =~= nets.take(i));
    assert forall|k: int| 0 <= k < upto.drop_last().len() implies (
    #[trigger] upto.drop_last()[k]).item_text(2) != Some(net_name) by {
        assert(upto.drop_last()[k] == nets[k]);
    }
    assert(!in_table(upto.drop_last(), net_name));
}

} // verus!
