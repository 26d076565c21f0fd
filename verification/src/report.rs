//! The JSON reports of kicad-cli's electrical and design rule checks.
use vstd::prelude::*;
use crate::json::{json_document, json_trees, parse_json, Json, JsonError, JsonTree};
use crate::netlist::{opt_text, or_empty, text_or_empty};

verus! {

/// A position in a report, in the units of the report, normally mm.
#[derive(Debug, Clone, PartialEq)]
pub struct ReportPos {
    pub x: serde_json::Number,
    pub y: serde_json::Number,
}

/// A single object that a violation references: a pad, track or footprint in a design
/// rule report; a symbol, pin or label in an electrical rule report.
#[derive(Debug, Clone, PartialEq)]
pub struct ReportItem {
    pub description: String,
    pub pos: Option<ReportPos>,
    pub uuid: Option<String>,
}

/// A violation of an electrical rule.
#[derive(Debug, Clone)]
pub struct ErcViolation {
    pub severity: String,
    pub description: String,
    /// Sheet the violation was reported under.
    pub sheet: Option<String>,
    /// KiCad's machine-readable violation type. Empty when the report omits it.
    pub rule_type: String,
    /// Position of the first referenced item that carries one.
    pub pos: Option<ReportPos>,
    /// Every object the violation references, each with its own position.
    pub items: Vec<ReportItem>,
}

/// A violation of a design rule.
#[derive(Debug, Clone)]
pub struct DrcViolation {
    pub severity: String,
    pub description: String,
    /// Which report section this came from: "rule" (geometric/clearance),
    /// "unconnected" (ratsnest / copper connectivity) or "parity"
    /// (board-vs-schematic netlist mismatch).
    pub kind: String,
    /// KiCad's machine-readable violation type. Empty when the report omits it.
    pub rule_type: String,
    /// Position of the first referenced item that carries one.
    pub pos: Option<ReportPos>,
    /// Every object the violation references, each with its own position.
    pub items: Vec<ReportItem>,
}

/// What a referenced object is.
pub struct Item {
    pub description: Seq<char>,
    pub pos: Option<ReportPos>,
    pub uuid: Option<Seq<char>>,
}

impl View for ReportItem {
    type V = Item;

    open spec fn view(&self) -> Item {
        Item { description: self.description@, pos: self.pos, uuid: opt_text(self.uuid) }
    }
}

/// The objects that a list of them stands for.
pub open spec fn items_view(v: Seq<ReportItem>) -> Seq<Item> {
    Seq::new(v.len(), |i: int| v[i]@)
}

/// What a violation of an electrical rule is.
pub struct Erc {
    pub severity: Seq<char>,
    pub description: Seq<char>,
    pub sheet: Option<Seq<char>>,
    pub rule_type: Seq<char>,
    pub pos: Option<ReportPos>,
    pub items: Seq<Item>,
}

impl View for ErcViolation {
    type V = Erc;

    open spec fn view(&self) -> Erc {
        Erc {
            severity: self.severity@,
            description: self.description@,
            sheet: opt_text(self.sheet),
            rule_type: self.rule_type@,
            pos: self.pos,
            items: items_view(self.items@),
        }
    }
}

/// The violations that a list of them stands for.
pub open spec fn ercs_view(v: Seq<ErcViolation>) -> Seq<Erc> {
    Seq::new(v.len(), |i: int| v[i]@)
}

/// What a violation of a design rule is.
pub struct Drc {
    pub severity: Seq<char>,
    pub description: Seq<char>,
    pub kind: Seq<char>,
    pub rule_type: Seq<char>,
    pub pos: Option<ReportPos>,
    pub items: Seq<Item>,
}

impl View for DrcViolation {
    type V = Drc;

    open spec fn view(&self) -> Drc {
        Drc {
            severity: self.severity@,
            description: self.description@,
            kind: self.kind@,
            rule_type: self.rule_type@,
            pos: self.pos,
            items: items_view(self.items@),
        }
    }
}

/// The violations that a list of them stands for.
pub open spec fn drcs_view(v: Seq<DrcViolation>) -> Seq<Drc> {
    Seq::new(v.len(), |i: int| v[i]@)
}

// ─── What a report says ───────────────────────────────────────────────────────

/// A text, or another one where there is none.
pub open spec fn text_or(t: Option<Seq<char>>, default: Seq<char>) -> Seq<char> {
    match t {
        Some(x) => x,
        None => default,
    }
}

/// The position that an entry of a report carries: one with two numbers.
pub open spec fn pos_of(v: JsonTree) -> Option<ReportPos> {
    match v.get("pos"@) {
        Some(p) => match (p.get_float("x"@), p.get_float("y"@)) {
            (Some(x), Some(y)) => Some(ReportPos { x, y }),
            _ => None,
        },
        None => None,
    }
}

/// The object that an entry of `items` stands for.
pub open spec fn item_of(v: JsonTree) -> Item {
    Item {
        description: or_empty(v.get_text("description"@)),
        pos: pos_of(v),
        uuid: v.get_text("uuid"@),
    }
}

/// The objects that a violation references, in order.
pub open spec fn items_of(v: JsonTree) -> Seq<Item> {
    match v.get_items("items"@) {
        Some(items) => Seq::new(items.len(), |i: int| item_of(items[i])),
        None => Seq::empty(),
    }
}

/// The position of the first object that has one.
pub open spec fn first_pos(items: Seq<Item>) -> Option<ReportPos>
    decreases items.len(),
{
    if items.len() == 0 {
        None
    } else {
        match first_pos(items.drop_last()) {
            Some(p) => Some(p),
            None => items.last().pos,
        }
    }
}

/// The position that best represents a violation as a whole: that of the first object
/// that has one, or else its own.
pub open spec fn headline_pos(v: JsonTree) -> Option<ReportPos> {
    match first_pos(items_of(v)) {
        Some(p) => Some(p),
        None => pos_of(v),
    }
}

/// The violation that an entry of an electrical rule report stands for. The sheet is
/// the entry's own or else the enclosing one.
pub open spec fn erc_of(v: JsonTree, sheet: Option<Seq<char>>) -> Erc {
    Erc {
        severity: text_or(v.get_text("severity"@), "error"@),
        description: or_empty(v.get_text("description"@)),
        sheet: match v.get_text("sheet"@) {
            Some(s) => Some(s),
            None => sheet,
        },
        rule_type: or_empty(v.get_text("type"@)),
        pos: headline_pos(v),
        items: items_of(v),
    }
}

/// The violations listed in one place of an electrical rule report, in order.
pub open spec fn ercs_in(v: JsonTree, sheet: Option<Seq<char>>) -> Seq<Erc> {
    match v.get_items("violations"@) {
        Some(entries) => Seq::new(entries.len(), |i: int| erc_of(entries[i], sheet)),
        None => Seq::empty(),
    }
}

/// The violations of a list of sheets, in order.
pub open spec fn ercs_in_sheets(sheets: Seq<JsonTree>) -> Seq<Erc>
    decreases sheets.len(),
{
    if sheets.len() == 0 {
        Seq::empty()
    } else {
        ercs_in_sheets(sheets.drop_last()) + ercs_in(sheets.last(), sheets.last().get_text("path"@))
    }
}

/// The violations of an electrical rule report: those listed at its top, where it has
/// such a list, and those listed under its sheets.
pub open spec fn ercs_of(raw: JsonTree) -> Seq<Erc> {
    ercs_in(raw, None) + (match raw.get_items("sheets"@) {
        Some(sheets) => ercs_in_sheets(sheets),
        None => Seq::empty(),
    })
}

/// The violation that an entry of a design rule report stands for.
pub open spec fn drc_of(v: JsonTree, kind: Seq<char>, default_severity: Seq<char>) -> Drc {
    Drc {
        severity: text_or(v.get_text("severity"@), default_severity),
        description: or_empty(v.get_text("description"@)),
        kind,
        rule_type: or_empty(v.get_text("type"@)),
        pos: headline_pos(v),
        items: items_of(v),
    }
}

/// The violations of one section of a design rule report, in order.
pub open spec fn drcs_in(
    raw: JsonTree,
    section: Seq<char>,
    kind: Seq<char>,
    default_severity: Seq<char>,
) -> Seq<Drc> {
    match raw.get_items(section) {
        Some(entries) => Seq::new(
            entries.len(),
            |i: int| drc_of(entries[i], kind, default_severity),
        ),
        None => Seq::empty(),
    }
}

/// The violations of a design rule report, from all three of its sections.
pub open spec fn drcs_of(raw: JsonTree) -> Seq<Drc> {
    drcs_in(raw, "violations"@, "rule"@, "error"@) + drcs_in(
        raw,
        "unconnected_items"@,
        "unconnected"@,
        "error"@,
    ) + drcs_in(raw, "schematic_parity"@, "parity"@, "error"@)
}

// ─── Reading it ───────────────────────────────────────────────────────────────

fn owned_or(t: Option<&str>, default: &str) -> (r: String)
    ensures
        match t {
            Some(x) => r@ == x@,
            None => r@ == default@,
        },
{
    match t {
        Some(x) => x.to_owned(),
        None => default.to_owned(),
    }
}

fn owned(t: Option<&str>) -> (r: Option<String>)
    ensures
        match t {
            Some(x) => opt_text(r) == Some(x@),
            None => opt_text(r) is None,
        },
{
    match t {
        Some(x) => Some(x.to_owned()),
        None => None,
    }
}

fn clone_pos(p: &Option<ReportPos>) -> (r: Option<ReportPos>)
    ensures
        r == *p,
{
    match p {
        Some(p) => Some(ReportPos { x: p.x.clone(), y: p.y.clone() }),
        None => None,
    }
}

fn read_pos(v: &Json) -> (r: Option<ReportPos>)
    ensures
        r == pos_of(v@),
{
    match v.get("pos") {
        Some(p) => match (p.get_float("x"), p.get_float("y")) {
            (Some(x), Some(y)) => Some(ReportPos { x, y }),
            _ => None,
        },
        None => None,
    }
}

/// The objects that a violation references, and the position that best represents it
/// as a whole.
pub fn parse_report_items(v: &Json) -> (r: (Vec<ReportItem>, Option<ReportPos>))
    ensures
        items_view(r.0@) == items_of(v@),
        r.1 == headline_pos(v@),
{
    let mut items: Vec<ReportItem> = Vec::new();
    let mut pos: Option<ReportPos> = None;
    assert(items_view(items@) =~= Seq::<Item>::empty());
    if let Some(entries) = v.get_array("items") {
        let ghost all = items_of(v@);
        let ghost trees = json_trees(entries@);
        assert(all.take(0) =~= Seq::<Item>::empty());
        let mut i: usize = 0;
        while i < entries.len()
            invariant
                i <= entries@.len(),
                trees == json_trees(entries@),
                all == Seq::new(trees.len(), |i: int| item_of(trees[i])),
                items_view(items@) == all.take(i as int),
                pos == first_pos(all.take(i as int)),
            decreases entries@.len() - i,
        {
            let e = &entries[i];
            let item = ReportItem {
                description: text_or_empty(e.get_str("description")),
                pos: read_pos(e),
                uuid: owned(e.get_str("uuid")),
            };
            proof {
                assert(trees[i as int] == e@);
                assert(all[i as int] == item@);
                assert(all.take(i + 1) =~= all.take(i as int).push(item@));
                assert(all.take(i + 1).drop_last() =~= all.take(i as int));
                assert(items_view(items@.push(item)) =~= items_view(items@).push(item@));
            }
            if pos.is_none() {
                pos = clone_pos(&item.pos);
            }
            items.push(item);
            i = i + 1;
        }
        assert(all.take(entries@.len() as int) =~= all);
    }
    if pos.is_none() {
        pos = read_pos(v);
    }
    (items, pos)
}

/// The violation that an entry of an electrical rule report stands for. `sheet_path`
/// is the path of the enclosing sheet, used only when the entry has no sheet of its
/// own.
pub fn parse_erc_violation(v: &Json, sheet_path: Option<&str>) -> (r: ErcViolation)
    ensures
        match sheet_path {
            Some(s) => r@ == erc_of(v@, Some(s@)),
            None => r@ == erc_of(v@, None),
        },
{
    let (items, pos) = parse_report_items(v);
    let sheet = match v.get_str("sheet") {
        Some(s) => Some(s),
        None => sheet_path,
    };
    ErcViolation {
        severity: owned_or(v.get_str("severity"), "error"),
        description: text_or_empty(v.get_str("description")),
        sheet: owned(sheet),
        rule_type: text_or_empty(v.get_str("type")),
        pos,
        items,
    }
}

fn add_ercs(v: &Json, sheet_path: Option<&str>, out: &mut Vec<ErcViolation>)
    ensures
        match sheet_path {
            Some(s) => ercs_view(final(out)@) == ercs_view(old(out)@) + ercs_in(v@, Some(s@)),
            None => ercs_view(final(out)@) == ercs_view(old(out)@) + ercs_in(v@, None),
        },
{
    let ghost sheet: Option<Seq<char>> = match sheet_path {
        Some(s) => Some(s@),
        None => None,
    };
    let ghost before = ercs_view(out@);
    let ghost all = ercs_in(v@, sheet);
    assert(before + all.take(0) =~= before);
    match v.get_array("violations") {
        Some(entries) => {
            let ghost trees = json_trees(entries@);
            let mut i: usize = 0;
            while i < entries.len()
                invariant
                    i <= entries@.len(),
                    trees == json_trees(entries@),
                    sheet == (match sheet_path {
                        Some(s) => Some(s@),
                        None => None,
                    }),
                    all == Seq::new(trees.len(), |i: int| erc_of(trees[i], sheet)),
                    ercs_view(out@) == before + all.take(i as int),
                decreases entries@.len() - i,
            {
                let e = parse_erc_violation(&entries[i], sheet_path);
                proof {
                    assert(trees[i as int] == entries@[i as int]@);
                    assert(all[i as int] == e@);
                    assert(ercs_view(out@.push(e)) =~= ercs_view(out@).push(e@));
                    assert((before + all.take(i as int)).push(e@) =~= before + all.take(i + 1));
                }
                out.push(e);
                i = i + 1;
            }
            assert(all.take(entries@.len() as int) =~= all);
        },
        None => {
            assert(before + all =~= before);
        },
    }
}

/// The violations of a parsed electrical rule report. They sit under `sheets`, one
/// level deeper than those of a design rule report; a list at the top is folded in
/// when there is one.
pub fn parse_erc_json(raw: &Json) -> (r: Vec<ErcViolation>)
    ensures
        ercs_view(r@) == ercs_of(raw@),
{
    let mut out: Vec<ErcViolation> = Vec::new();
    add_ercs(raw, None, &mut out);
    let ghost top = ercs_in(raw@, None);
    assert(ercs_view(out@) =~= top);
    match raw.get_array("sheets") {
        Some(sheets) => {
            let ghost all = json_trees(sheets@);
            let mut i: usize = 0;
            assert(top + ercs_in_sheets(all.take(0)) =~= top);
            while i < sheets.len()
                invariant
                    i <= sheets@.len(),
                    all == json_trees(sheets@),
                    ercs_view(out@) == top + ercs_in_sheets(all.take(i as int)),
                decreases sheets@.len() - i,
            {
                let sheet = &sheets[i];
                let path = sheet.get_str("path");
                proof {
                    assert(all.take(i + 1).drop_last() =~= all.take(i as int));
                    assert(all.take(i + 1).last() == sheet@);
                }
                add_ercs(sheet, path, &mut out);
                assert(ercs_view(out@) =~= top + ercs_in_sheets(all.take(i + 1)));
                i = i + 1;
            }
            assert(all.take(sheets@.len() as int) =~= all);
        },
        None => {
            assert(top + Seq::<Erc>::empty() =~= top);
        },
    }
    out
}

/// Adds the violations of one section of a parsed design rule report, each tagged with
/// `kind`. Where an entry has no severity, it has the default one.
pub fn parse_drc_section(
    raw: &Json,
    section: &str,
    kind: &str,
    default_severity: &str,
    out: &mut Vec<DrcViolation>,
)
    ensures
        drcs_view(final(out)@) == drcs_view(old(out)@) + drcs_in(
            raw@,
            section@,
            kind@,
            default_severity@,
        ),
{
    let ghost before = drcs_view(out@);
    let ghost all = drcs_in(raw@, section@, kind@, default_severity@);
    assert(before + all.take(0) =~= before);
    match raw.get_array(section) {
        Some(entries) => {
            let ghost trees = json_trees(entries@);
            let mut i: usize = 0;
            while i < entries.len()
                invariant
                    i <= entries@.len(),
                    trees == json_trees(entries@),
                    all == Seq::new(
                        trees.len(),
                        |i: int| drc_of(trees[i], kind@, default_severity@),
                    ),
                    drcs_view(out@) == before + all.take(i as int),
                decreases entries@.len() - i,
            {
                let e = &entries[i];
                let (items, pos) = parse_report_items(e);
                let v = DrcViolation {
                    severity: owned_or(e.get_str("severity"), default_severity),
                    description: text_or_empty(e.get_str("description")),
                    kind: kind.to_owned(),
                    rule_type: text_or_empty(e.get_str("type")),
                    pos,
                    items,
                };
                proof {
                    assert(trees[i as int] == e@);
                    assert(all[i as int] == v@);
                    assert(drcs_view(out@.push(v)) =~= drcs_view(out@).push(v@));
                    assert((before + all.take(i as int)).push(v@) =~= before + all.take(i + 1));
                }
                out.push(v);
                i = i + 1;
            }
            assert(all.take(entries@.len() as int) =~= all);
        },
        None => {
            assert(before + all =~= before);
        },
    }
}

/// The violations of a parsed design rule report, from all three of its sections.
pub fn parse_drc_json(raw: &Json) -> (r: Vec<DrcViolation>)
    ensures
        drcs_view(r@) == drcs_of(raw@),
{
    let mut out: Vec<DrcViolation> = Vec::new();
    assert(drcs_view(out@) =~= Seq::<Drc>::empty());
    parse_drc_section(raw, "violations", "rule", "error", &mut out);
    parse_drc_section(raw, "unconnected_items", "unconnected", "error", &mut out);
    parse_drc_section(raw, "schematic_parity", "parity", "error", &mut out);
    assert(drcs_view(out@) =~= drcs_of(raw@));
    out
}

/// The violations in the text of an electrical rule report.
pub fn read_erc_report(text: &str) -> (r: Result<Vec<ErcViolation>, JsonError>)
    ensures
        match r {
            Ok(v) => json_document(text@) is Some && ercs_view(v@) == ercs_of(
                json_document(text@)->0,
            ),
            Err(_) => json_document(text@) is None,
        },
{
    match parse_json(text) {
        Ok(raw) => Ok(parse_erc_json(&raw)),
        Err(e) => Err(e),
    }
}

/// The violations in the text of a design rule report.
pub fn read_drc_report(text: &str) -> (r: Result<Vec<DrcViolation>, JsonError>)
    ensures
        match r {
            Ok(v) => json_document(text@) is Some && drcs_view(v@) == drcs_of(
                json_document(text@)->0,
            ),
            Err(_) => json_document(text@) is None,
        },
{
    match parse_json(text) {
        Ok(raw) => Ok(parse_drc_json(&raw)),
        Err(e) => Err(e),
    }
}

// ─── Laws ─────────────────────────────────────────────────────────────────────

/// How many entries a section of a report lists.
pub open spec fn entry_count(raw: JsonTree, section: Seq<char>) -> nat {
    match raw.get_items(section) {
        Some(entries) => entries.len(),
        None => 0,
    }
}

/// How many of the violations are of a kind.
pub open spec fn count_kind(v: Seq<Drc>, kind: Seq<char>) -> nat
    decreases v.len(),
{
    if v.len() == 0 {
        0
    } else {
        count_kind(v.drop_last(), kind) + (if v.last().kind == kind {
            1nat
        } else {
            0
        })
    }
}

proof fn lemma_count_kind(a: Seq<Drc>, b: Seq<Drc>, own: Seq<char>, kind: Seq<char>)
    requires
        forall|i: int| 0 <= i < b.len() ==> (#[trigger] b[i]).kind == own,
    ensures
        count_kind(a + b, kind) == count_kind(a, kind) + (if own == kind {
            b.len()
        } else {
            0
        }),
    decreases b.len(),
{
    if b.len() == 0 {
        assert(a + b =~= a);
    } else {
        assert((a + b).drop_last() =~= a + b.drop_last());
        assert((a + b).last() == b[b.len() - 1]);
        assert forall|i: int| 0 <= i < b.drop_last().len() implies (
        #[trigger] b.drop_last()[i]).kind == own by {
            assert(b.drop_last()[i] == b[i]);
        }
        lemma_count_kind(a, b.drop_last(), own, kind);
    }
}

/// No section of a design rule report is dropped: of each kind there are as many
/// violations as its section has entries, and every violation is of one of the kinds.
pub proof fn law_every_drc_entry_is_tagged(raw: JsonTree)
    ensures
        count_kind(drcs_of(raw), "rule"@) == entry_count(raw, "violations"@),
        count_kind(drcs_of(raw), "unconnected"@) == entry_count(raw, "unconnected_items"@),
        count_kind(drcs_of(raw), "parity"@) == entry_count(raw, "schematic_parity"@),
        drcs_of(raw).len() == count_kind(drcs_of(raw), "rule"@) + count_kind(
            drcs_of(raw),
            "unconnected"@,
        ) + count_kind(drcs_of(raw), "parity"@),
{
    reveal_strlit("rule");
    reveal_strlit("unconnected");
    reveal_strlit("parity");
    assert("rule"@.len() == 4);
    assert("unconnected"@.len() == 11);
    assert("parity"@.len() == 6);
    let none = Seq::<Drc>::empty();
    let a = drcs_in(raw, "violations"@, "rule"@, "error"@);
    let b = drcs_in(raw, "unconnected_items"@, "unconnected"@, "error"@);
    let c = drcs_in(raw, "schematic_parity"@, "parity"@, "error"@);
    assert(none + a =~= a);
    lemma_count_kind(none, a, "rule"@, "rule"@);
    lemma_count_kind(none, a, "rule"@, "unconnected"@);
    lemma_count_kind(none, a, "rule"@, "parity"@);
    lemma_count_kind(a, b, "unconnected"@, "rule"@);
    lemma_count_kind(a, b, "unconnected"@, "unconnected"@);
    lemma_count_kind(a, b, "unconnected"@, "parity"@);
    lemma_count_kind(a + b, c, "parity"@, "rule"@);
    lemma_count_kind(a + b, c, "parity"@, "unconnected"@);
    lemma_count_kind(a + b, c, "parity"@, "parity"@);
}

proof fn lemma_sheets_attributed(sheets: Seq<JsonTree>)
    requires
        forall|i: int| 0 <= i < sheets.len() ==> (#[trigger] sheets[i]).get_text("path"@) is Some,
    ensures
        forall|i: int|
            0 <= i < ercs_in_sheets(sheets).len() ==> (#[trigger] ercs_in_sheets(
                sheets,
            )[i]).sheet is Some,
    decreases sheets.len(),
{
    if sheets.len() > 0 {
        let before = sheets.drop_last();
        assert forall|i: int| 0 <= i < before.len() implies (#[trigger] before[i]).get_text(
            "path"@,
        ) is Some by {
            assert(before[i] == sheets[i]);
        }
        lemma_sheets_attributed(before);
        let last = sheets[sheets.len() - 1];
        let own = ercs_in(last, last.get_text("path"@));
        let old = ercs_in_sheets(before);
        let all = ercs_in_sheets(sheets);
        assert forall|i: int| 0 <= i < all.len() implies (#[trigger] all[i]).sheet is Some by {
            if i < old.len() {
                assert(all[i] == old[i]);
            } else {
                assert(all[i] == own[i - old.len()]);
            }
        }
    }
}

/// In a report that lists its violations under sheets that have a path, every
/// violation is attributed to a sheet.
pub proof fn law_every_erc_entry_has_a_sheet(raw: JsonTree, i: int)
    requires
        raw.get_items("violations"@) is None,
        raw.get_items("sheets"@) matches Some(sheets) ==> forall|k: int|
            0 <= k < sheets.len() ==> (#[trigger] sheets[k]).get_text("path"@) is Some,
        0 <= i < ercs_of(raw).len(),
    ensures
        ercs_of(raw)[i].sheet is Some,
{
    if let Some(sheets) = raw.get_items("sheets"@) {
        lemma_sheets_attributed(sheets);
        assert(ercs_of(raw)[i] == ercs_in_sheets(sheets)[i]);
    }
}

/// How many violations a list of sheets holds.
pub open spec fn sheet_entry_count(sheets: Seq<JsonTree>) -> nat
    decreases sheets.len(),
{
    if sheets.len() == 0 {
        0
    } else {
        sheet_entry_count(sheets.drop_last()) + entry_count(sheets.last(), "violations"@)
    }
}

proof fn lemma_sheet_entries(sheets: Seq<JsonTree>)
    ensures
        ercs_in_sheets(sheets).len() == sheet_entry_count(sheets),
    decreases sheets.len(),
{
    if sheets.len() > 0 {
        lemma_sheet_entries(sheets.drop_last());
    }
}

/// No violation of an electrical rule report is dropped: there are as many as its
/// sheets and its top list together.
pub proof fn law_no_erc_entry_is_dropped(raw: JsonTree)
    ensures
        ercs_of(raw).len() == entry_count(raw, "violations"@) + (match raw.get_items("sheets"@) {
            Some(sheets) => sheet_entry_count(sheets),
            None => 0,
        }),
{
    if let Some(sheets) = raw.get_items("sheets"@) {
        lemma_sheet_entries(sheets);
    }
}

/// Every entry of every section of a design rule report is reported in its place, with its
/// own severity, description and type. Only where it has no severity is it an error, and
/// only where it has no description or no type is that empty.
pub proof fn law_drc_entry_is_reported(
    raw: JsonTree,
    section: Seq<char>,
    kind: Seq<char>,
    at: int,
    i: int,
)
    requires
        ({
            ||| section == "violations"@ && kind == "rule"@ && at == 0
            ||| section == "unconnected_items"@ && kind == "unconnected"@ && at == entry_count(
                raw,
                "violations"@,
            )
            ||| section == "schematic_parity"@ && kind == "parity"@ && at == entry_count(
                raw,
                "violations"@,
            ) + entry_count(raw, "unconnected_items"@)
        }),
        raw.get(section) matches Some(JsonTree::Array(entries)) && 0 <= i < entries.len(),
    ensures
        ({
            let e = raw.get(section)->0->Array_0[i];
            let v = drcs_of(raw)[at + i];
            &&& at + i < drcs_of(raw).len()
            &&& v.kind == kind
            &&& e.get_text("severity"@) matches Some(t) ==> v.severity == t
            &&& e.get_text("severity"@) is None ==> v.severity == "error"@
            &&& e.get_text("description"@) matches Some(t) ==> v.description == t
            &&& e.get_text("description"@) is None ==> v.description == Seq::<char>::empty()
            &&& e.get_text("type"@) matches Some(t) ==> v.rule_type == t
            &&& e.get_text("type"@) is None ==> v.rule_type == Seq::<char>::empty()
            &&& v.items == items_of(e)
            &&& v.pos == headline_pos(e)
        }),
{
    let a = drcs_in(raw, "violations"@, "rule"@, "error"@);
    let b = drcs_in(raw, "unconnected_items"@, "unconnected"@, "error"@);
    let c = drcs_in(raw, "schematic_parity"@, "parity"@, "error"@);
    assert(a.len() == entry_count(raw, "violations"@));
    assert(b.len() == entry_count(raw, "unconnected_items"@));
    reveal_strlit("violations");
    reveal_strlit("unconnected_items");
    reveal_strlit("schematic_parity");
    assert("violations"@.len() == 10);
    assert("unconnected_items"@.len() == 17);
    assert("schematic_parity"@.len() == 16);
    if section == "violations"@ {
        assert((a + b + c)[i] == a[i]);
    } else if section == "unconnected_items"@ {
        assert((a + b + c)[at + i] == b[i]);
    } else {
        assert((a + b + c)[at + i] == c[i]);
    }
}

/// A design rule report has no violations but those of its entries.
pub proof fn law_drc_has_nothing_else(raw: JsonTree)
    ensures
        drcs_of(raw).len() == entry_count(raw, "violations"@) + entry_count(
            raw,
            "unconnected_items"@,
        ) + entry_count(raw, "schematic_parity"@),
{
}

/// A violation references the objects that its entry lists, in their order, each with its
/// own description and identifier; an entry without a list references none.
pub proof fn law_objects_of_an_entry(e: JsonTree, k: int)
    ensures
        e.get("items"@) matches Some(JsonTree::Array(list)) ==> {
            &&& items_of(e).len() == list.len()
            &&& 0 <= k < list.len() ==> {
                let o = items_of(e)[k];
                &&& list[k].get_text("description"@) matches Some(t) ==> o.description == t
                &&& list[k].get_text("description"@) is None ==> o.description == Seq::<
                    char,
                >::empty()
                &&& o.uuid == list[k].get_text("uuid"@)
                &&& o.pos == pos_of(list[k])
            }
        },
        !(e.get("items"@) matches Some(JsonTree::Array(_))) ==> items_of(e).len() == 0,
{
}

/// A position has the two numbers that it is given with; where one is missing there is no
/// position.
pub proof fn law_position_of_an_entry(e: JsonTree)
    ensures
        e.get("pos"@) matches Some(p) ==> {
            &&& p.get_float("x"@) is Some && p.get_float("y"@) is Some ==> pos_of(e) == Some(
                ReportPos { x: p.get_float("x"@)->0, y: p.get_float("y"@)->0 },
            )
            &&& p.get_float("x"@) is None || p.get_float("y"@) is None ==> pos_of(e) is None
        },
        e.get("pos"@) is None ==> pos_of(e) is None,
{
}

proof fn lemma_first_pos(items: Seq<Item>, k: int)
    requires
        0 <= k <= items.len(),
        forall|j: int| 0 <= j < k ==> (#[trigger] items[j]).pos is None,
        k < items.len() ==> items[k].pos is Some,
    ensures
        k < items.len() ==> first_pos(items) == items[k].pos,
        k == items.len() ==> first_pos(items) is None,
    decreases items.len(),
{
    if items.len() > 0 {
        let before = items.drop_last();
        let m = if k == items.len() {
            k - 1
        } else {
            k
        };
        assert forall|j: int| 0 <= j < m implies (#[trigger] before[j]).pos is None by {
            assert(before[j] == items[j]);
        }
        assert(k == items.len() ==> items[k - 1].pos is None);
        if m < before.len() {
            assert(before[m] == items[m]);
        }
        lemma_first_pos(before, m);
    }
}

/// The position of a violation is that of its first object that has one, and its own where
/// none has.
pub proof fn law_position_of_a_violation(e: JsonTree, k: int)
    requires
        0 <= k <= items_of(e).len(),
        forall|j: int| 0 <= j < k ==> (#[trigger] items_of(e)[j]).pos is None,
        k < items_of(e).len() ==> items_of(e)[k].pos is Some,
    ensures
        k < items_of(e).len() ==> headline_pos(e) == items_of(e)[k].pos,
        k == items_of(e).len() ==> headline_pos(e) == pos_of(e),
{
    lemma_first_pos(items_of(e), k);
}

proof fn lemma_sheet_entry(sheets: Seq<JsonTree>, s: int, i: int)
    requires
        0 <= s < sheets.len(),
        0 <= i < entry_count(sheets[s], "violations"@),
    ensures
        ({
            let at = sheet_entry_count(sheets.take(s)) + i;
            &&& at < ercs_in_sheets(sheets).len()
            &&& ercs_in_sheets(sheets)[at] == ercs_in(sheets[s], sheets[s].get_text("path"@))[i]
        }),
    decreases sheets.len(),
{
    let before = sheets.drop_last();
    let own = ercs_in(sheets.last(), sheets.last().get_text("path"@));
    lemma_sheet_entries(before);
    if s == sheets.len() - 1 {
        assert(sheets.take(s) =~= before);
        assert((ercs_in_sheets(before) + own)[ercs_in_sheets(before).len() + i] == own[i]);
    } else {
        assert(before.take(s) =~= sheets.take(s));
        assert(before[s] == sheets[s]);
        lemma_sheet_entry(before, s, i);
    }
}

/// Does the violation say what the entry says, and stand on the given sheet where the entry
/// names none itself?
pub open spec fn tells(v: Erc, e: JsonTree, sheet: Option<Seq<char>>) -> bool {
    &&& e.get_text("severity"@) matches Some(t) ==> v.severity == t
    &&& e.get_text("severity"@) is None ==> v.severity == "error"@
    &&& e.get_text("description"@) matches Some(t) ==> v.description == t
    &&& e.get_text("description"@) is None ==> v.description == Seq::<char>::empty()
    &&& e.get_text("type"@) matches Some(t) ==> v.rule_type == t
    &&& e.get_text("type"@) is None ==> v.rule_type == Seq::<char>::empty()
    &&& e.get_text("sheet"@) matches Some(t) ==> v.sheet == Some(t)
    &&& e.get_text("sheet"@) is None ==> v.sheet == sheet
    &&& v.items == items_of(e)
    &&& v.pos == headline_pos(e)
}

/// The entries at the top of an electrical rule report come first, each with what it says
/// itself; one that names no sheet is on none.
pub proof fn law_erc_entry_is_reported(raw: JsonTree, i: int)
    requires
        raw.get("violations"@) matches Some(JsonTree::Array(entries)) && 0 <= i < entries.len(),
    ensures
        i < ercs_of(raw).len(),
        tells(ercs_of(raw)[i], raw.get("violations"@)->0->Array_0[i], None),
{
    assert(ercs_of(raw)[i] == ercs_in(raw, None)[i]);
}

/// The entries under the sheets of an electrical rule report follow, sheet by sheet, each
/// with what it says itself; one that names no sheet is on the one it stands under.
pub proof fn law_erc_entry_of_a_sheet_is_reported(
    raw: JsonTree,
    sheets: Seq<JsonTree>,
    s: int,
    i: int,
)
    requires
        raw.get("sheets"@) == Some(JsonTree::Array(sheets)),
        0 <= s < sheets.len(),
        sheets[s].get("violations"@) matches Some(JsonTree::Array(entries)) && 0 <= i
            < entries.len(),
    ensures
        ({
            let at = entry_count(raw, "violations"@) + sheet_entry_count(sheets.take(s)) + i;
            &&& at < ercs_of(raw).len()
            &&& tells(
                ercs_of(raw)[at],
                sheets[s].get("violations"@)->0->Array_0[i],
                sheets[s].get_text("path"@),
            )
        }),
{
    let top = ercs_in(raw, None);
    let rest = ercs_in_sheets(sheets);
    lemma_sheet_entry(sheets, s, i);
    let k: int = sheet_entry_count(sheets.take(s)) + i;
    assert((top + rest)[top.len() + k] == rest[k]);
}

} // verus!
