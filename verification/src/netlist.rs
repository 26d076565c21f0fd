//! KiCad netlist (`kicadsexpr`) reading and the board-vs-schematic diff.
//!
//! This is the read/plan half of a file-based "Update PCB from Schematic"
//! (KiCad's F8). [`parse_netlist`] turns an exported netlist into a per-pad net
//! map, [`parse_board`] models the current `.kicad_pcb`, and [`plan`] diffs them
//! into a change set that can be applied, plus warnings for everything the
//! file-only path cannot do (adding or refootprinting components).
use vstd::prelude::*;
use crate::order::{ascending, has_text, insert_ascending, texts};
use crate::sexp::{parse_sexp, read_sexp, ref_trees, Sexp, SexpError, SexpNode};
use crate::text::same_text;

verus! {

// ─── Netlist model ────────────────────────────────────────────────────────────

/// One component as declared in the schematic netlist.
#[derive(Debug, Clone, PartialEq)]
pub struct NlComp {
    pub reference: String,
    pub value: String,
    pub footprint: String,
}

/// What a netlist component is.
pub struct Comp {
    pub reference: Seq<char>,
    pub value: Seq<char>,
    pub footprint: Seq<char>,
}

impl View for NlComp {
    type V = Comp;

    open spec fn view(&self) -> Comp {
        Comp { reference: self.reference@, value: self.value@, footprint: self.footprint@ }
    }
}

/// The components that a list of them stands for.
pub open spec fn comps_view(v: Seq<NlComp>) -> Seq<Comp> {
    Seq::new(v.len(), |i: int| v[i]@)
}

/// `(reference, pad)` → desired net name. Of two entries for one pad the later
/// one counts.
#[derive(Debug, Clone)]
pub struct PadNets {
    entries: Vec<((String, String), String)>,
}

/// The map that a list of entries makes.
pub open spec fn entries_map(e: Seq<((String, String), String)>) -> Map<
    (Seq<char>, Seq<char>),
    Seq<char>,
>
    decreases e.len(),
{
    if e.len() == 0 {
        Map::empty()
    } else {
        entries_map(e.drop_last()).insert((e.last().0.0@, e.last().0.1@), e.last().1@)
    }
}

impl View for PadNets {
    type V = Map<(Seq<char>, Seq<char>), Seq<char>>;

    closed spec fn view(&self) -> Map<(Seq<char>, Seq<char>), Seq<char>> {
        entries_map(self.entries@)
    }
}

impl PadNets {
    /// No pad has a net.
    pub fn new() -> (r: PadNets)
        ensures
            r@ == Map::<(Seq<char>, Seq<char>), Seq<char>>::empty(),
    {
        PadNets { entries: Vec::new() }
    }

    /// Gives the pad `key` the net `net`, in place of the one that it had.
    pub fn insert(&mut self, key: (String, String), net: String)
        ensures
            final(self)@ == old(self)@.insert((key.0@, key.1@), net@),
    {
        let ghost before = self.entries@;
        self.entries.push((key, net));
        assert(self.entries@.drop_last() =~= before);
    }

    /// The net of the pad `key`.
    pub fn get(&self, key: &(String, String)) -> (r: Option<&String>)
        ensures
            r matches Some(n) ==> self@.dom().contains((key.0@, key.1@)) && self@[(
                key.0@,
                key.1@,
            )] == n@,
            r is None ==> !self@.dom().contains((key.0@, key.1@)),
    {
        let ghost k = (key.0@, key.1@);
        let mut i: usize = self.entries.len();
        assert(self.entries@.take(i as int) =~= self.entries@);
        while i > 0
            invariant
                i <= self.entries@.len(),
                k == (key.0@, key.1@),
                self@.dom().contains(k) == entries_map(self.entries@.take(i as int)).dom().contains(
                    k,
                ),
                self@.dom().contains(k) ==> self@[k] == entries_map(
                    self.entries@.take(i as int),
                )[k],
            decreases i,
        {
            let ghost upto = self.entries@.take(i as int);
            i = i - 1;
            let e = &self.entries[i];
            proof {
                assert(upto.drop_last() =~= self.entries@.take(i as int));
                assert(upto.last() == *e);
            }
            if e.0.0 == key.0 && e.0.1 == key.1 {
                return Some(&e.1);
            }
        }
        None
    }
}

/// Parsed schematic netlist: components, the desired net of every pad, and the
/// distinct net names (first-seen order).
#[derive(Debug, Clone)]
pub struct Netlist {
    pub comps: Vec<NlComp>,
    /// `(reference, pad)` → desired net name.
    pub pad_nets: PadNets,
    /// All distinct net names, in first-seen order.
    pub net_names: Vec<String>,
}

/// What a netlist is.
pub struct Connectivity {
    pub comps: Seq<Comp>,
    pub pad_nets: Map<(Seq<char>, Seq<char>), Seq<char>>,
    pub net_names: Seq<Seq<char>>,
}

impl View for Netlist {
    type V = Connectivity;

    open spec fn view(&self) -> Connectivity {
        Connectivity {
            comps: comps_view(self.comps@),
            pad_nets: self.pad_nets@,
            net_names: texts(self.net_names@),
        }
    }
}

impl Default for Netlist {
    fn default() -> (r: Netlist)
        ensures
            r@ == (Connectivity {
                comps: Seq::empty(),
                pad_nets: Map::empty(),
                net_names: Seq::empty(),
            }),
    {
        let r = Netlist { comps: Vec::new(), pad_nets: PadNets::new(), net_names: Vec::new() };
        assert(r@.comps =~= Seq::<Comp>::empty());
        assert(r@.net_names =~= Seq::<Seq<char>>::empty());
        r
    }
}

/// The text, or the empty text where there is none.
pub open spec fn or_empty(t: Option<Seq<char>>) -> Seq<char> {
    match t {
        Some(t) => t,
        None => Seq::empty(),
    }
}

/// The components that `(comp …)` nodes declare. One without a reference counts for nothing.
pub open spec fn declared_comps(nodes: Seq<Sexp>) -> Seq<Comp>
    decreases nodes.len(),
{
    if nodes.len() == 0 {
        Seq::empty()
    } else {
        let before = declared_comps(nodes.drop_last());
        let c = nodes.last();
        if or_empty(c.find_text("ref"@)).len() == 0 {
            before
        } else {
            before.push(
                Comp {
                    reference: or_empty(c.find_text("ref"@)),
                    value: or_empty(c.find_text("value"@)),
                    footprint: or_empty(c.find_text("footprint"@)),
                },
            )
        }
    }
}

/// The distinct names of `(net …)` nodes, in first-seen order.
pub open spec fn declared_names(nets: Seq<Sexp>) -> Seq<Seq<char>>
    decreases nets.len(),
{
    if nets.len() == 0 {
        Seq::empty()
    } else {
        let before = declared_names(nets.drop_last());
        match nets.last().find_text("name"@) {
            Some(name) => if before.contains(name) {
                before
            } else {
                before.push(name)
            },
            None => before,
        }
    }
}

/// `m` with every pad that a `(node …)` lists put on the net `name`. A node
/// without a reference or without a pin counts for nothing.
pub open spec fn with_nodes(
    m: Map<(Seq<char>, Seq<char>), Seq<char>>,
    nodes: Seq<Sexp>,
    name: Seq<char>,
) -> Map<(Seq<char>, Seq<char>), Seq<char>>
    decreases nodes.len(),
{
    if nodes.len() == 0 {
        m
    } else {
        let before = with_nodes(m, nodes.drop_last(), name);
        let r = or_empty(nodes.last().find_text("ref"@));
        let p = or_empty(nodes.last().find_text("pin"@));
        if r.len() == 0 || p.len() == 0 {
            before
        } else {
            before.insert((r, p), name)
        }
    }
}

/// The net of every pad that the `(net …)` nodes list. A net without a name counts for nothing.
pub open spec fn declared_pads(nets: Seq<Sexp>) -> Map<(Seq<char>, Seq<char>), Seq<char>>
    decreases nets.len(),
{
    if nets.len() == 0 {
        Map::empty()
    } else {
        let before = declared_pads(nets.drop_last());
        match nets.last().find_text("name"@) {
            Some(name) => with_nodes(before, nets.last().find_all("node"@), name),
            None => before,
        }
    }
}

/// The items headed by `name` inside the first item headed by `section`.
pub open spec fn section_items(tree: Sexp, section: Seq<char>, name: Seq<char>) -> Seq<Sexp> {
    match tree.find(section) {
        Some(n) => n.find_all(name),
        None => Seq::empty(),
    }
}

/// The netlist that a tree declares.
pub open spec fn netlist_of(tree: Sexp) -> Connectivity {
    let nets = section_items(tree, "nets"@, "net"@);
    Connectivity {
        comps: declared_comps(section_items(tree, "components"@, "comp"@)),
        pad_nets: declared_pads(nets),
        net_names: declared_names(nets),
    }
}

pub fn text_or_empty(t: Option<&str>) -> (r: String)
    ensures
        r@ == or_empty(
            match t {
                Some(t) => Some(t@),
                None => None,
            },
        ),
{
    match t {
        Some(t) => t.to_owned(),
        None => String::new(),
    }
}

fn read_comps(nodes: &Vec<&SexpNode>) -> (r: Vec<NlComp>)
    ensures
        comps_view(r@) == declared_comps(ref_trees(nodes@)),
{
    let ghost all = ref_trees(nodes@);
    let mut out: Vec<NlComp> = Vec::new();
    let mut i: usize = 0;
    assert(comps_view(out@) =~= Seq::<Comp>::empty());
    while i < nodes.len()
        invariant
            i <= nodes@.len(),
            all == ref_trees(nodes@),
            comps_view(out@) == declared_comps(all.take(i as int)),
        decreases nodes@.len() - i,
    {
        let c = nodes[i];
        proof {
            assert(all.take(i + 1).drop_last() =~= all.take(i as int));
            assert(all.take(i + 1).last() == c@);
        }
        let reference = text_or_empty(c.find_str("ref"));
        if !reference.as_str().is_empty() {
            let comp = NlComp {
                reference,
                value: text_or_empty(c.find_str("value")),
                footprint: text_or_empty(c.find_str("footprint")),
            };
            assert(comps_view(out@.push(comp)) =~= comps_view(out@).push(comp@));
            out.push(comp);
        }
        i = i + 1;
    }
    assert(all.take(nodes@.len() as int) =~= all);
    out
}

fn add_nodes(m: &mut PadNets, nodes: &Vec<&SexpNode>, name: &str)
    ensures
        final(m)@ == with_nodes(old(m)@, ref_trees(nodes@), name@),
{
    let ghost all = ref_trees(nodes@);
    let mut i: usize = 0;
    while i < nodes.len()
        invariant
            i <= nodes@.len(),
            all == ref_trees(nodes@),
            m@ == with_nodes(old(m)@, all.take(i as int), name@),
        decreases nodes@.len() - i,
    {
        let n = nodes[i];
        proof {
            assert(all.take(i + 1).drop_last() =~= all.take(i as int));
            assert(all.take(i + 1).last() == n@);
        }
        let r = text_or_empty(n.find_str("ref"));
        let p = text_or_empty(n.find_str("pin"));
        if !r.as_str().is_empty() && !p.as_str().is_empty() {
            m.insert((r, p), name.to_owned());
        }
        i = i + 1;
    }
    assert(all.take(nodes@.len() as int) =~= all);
}

/// Parse a `kicadsexpr` netlist into [`Netlist`].
pub fn parse_netlist(content: &str) -> (r: Result<Netlist, SexpError>)
    ensures
        r matches Ok(nl) ==> read_sexp(content@) is Some && nl@ == netlist_of(
            read_sexp(content@)->0,
        ),
        r is Err <==> read_sexp(content@) is None,
{
    let tree = match parse_sexp(content) {
        Ok(tree) => tree,
        Err(e) => {
            return Err(e);
        },
    };
    let comp_nodes: Vec<&SexpNode> = match tree.find("components") {
        Some(n) => n.find_all("comp"),
        None => Vec::new(),
    };
    assert(ref_trees(comp_nodes@) =~= section_items(tree@, "components"@, "comp"@));
    let comps = read_comps(&comp_nodes);

    let nets: Vec<&SexpNode> = match tree.find("nets") {
        Some(n) => n.find_all("net"),
        None => Vec::new(),
    };
    let ghost all = section_items(tree@, "nets"@, "net"@);
    assert(ref_trees(nets@) =~= all);
    let mut pad_nets = PadNets::new();
    let mut net_names: Vec<String> = Vec::new();
    assert(texts(net_names@) =~= Seq::<Seq<char>>::empty());
    let mut i: usize = 0;
    while i < nets.len()
        invariant
            i <= nets@.len(),
            all == ref_trees(nets@),
            pad_nets@ == declared_pads(all.take(i as int)),
            texts(net_names@) == declared_names(all.take(i as int)),
        decreases nets@.len() - i,
    {
        let net = nets[i];
        proof {
            assert(all.take(i + 1).drop_last() =~= all.take(i as int));
            assert(all.take(i + 1).last() == net@);
        }
        if let Some(name) = net.find_str("name") {
            if !has_text(&net_names, name) {
                let n = name.to_owned();
                assert(texts(net_names@.push(n)) =~= texts(net_names@).push(n@));
                net_names.push(n);
            }
            add_nodes(&mut pad_nets, &net.find_all("node"), name);
        }
        i = i + 1;
    }
    assert(all.take(nets@.len() as int) =~= all);
    Ok(Netlist { comps, pad_nets, net_names })
}

// ─── Board model ──────────────────────────────────────────────────────────────

/// A pad as it currently exists on the board.
#[derive(Debug, Clone, PartialEq)]
pub struct BoardPad {
    pub number: String,
    /// Current net name, or `None` if the pad carries no `(net ...)`.
    pub net: Option<String>,
}

/// What a pad is.
pub struct Pad {
    pub number: Seq<char>,
    pub net: Option<Seq<char>>,
}

/// The text of an optional string.
pub open spec fn opt_text(t: Option<String>) -> Option<Seq<char>> {
    match t {
        Some(t) => Some(t@),
        None => None,
    }
}

impl View for BoardPad {
    type V = Pad;

    open spec fn view(&self) -> Pad {
        Pad { number: self.number@, net: opt_text(self.net) }
    }
}

/// The pads that a list of them stands for.
pub open spec fn pads_view(v: Seq<BoardPad>) -> Seq<Pad> {
    Seq::new(v.len(), |i: int| v[i]@)
}

/// A footprint as it currently exists on the board.
#[derive(Debug, Clone, PartialEq)]
pub struct BoardFp {
    pub reference: String,
    pub value: String,
    pub footprint: String,
    pub pads: Vec<BoardPad>,
}

/// What a footprint is.
pub struct Fp {
    pub reference: Seq<char>,
    pub value: Seq<char>,
    pub footprint: Seq<char>,
    pub pads: Seq<Pad>,
}

impl View for BoardFp {
    type V = Fp;

    open spec fn view(&self) -> Fp {
        Fp {
            reference: self.reference@,
            value: self.value@,
            footprint: self.footprint@,
            pads: pads_view(self.pads@),
        }
    }
}

/// The footprints that a list of them stands for.
pub open spec fn fps_view(v: Seq<BoardFp>) -> Seq<Fp> {
    Seq::new(v.len(), |i: int| v[i]@)
}

/// Modeled `.kicad_pcb`: footprints plus the top-level net table.
#[derive(Debug, Clone)]
pub struct BoardModel {
    pub fps: Vec<BoardFp>,
    /// Does the file store nets with numeric codes (`(net 3 "GND")`)? Some
    /// boards store pad nets by name only (`(net "GND")`) with no top-level
    /// table — the two formats are written differently on apply.
    pub uses_codes: bool,
    /// Existing net names in the top-level net table, each once, in ascending order.
    pub net_table: Vec<String>,
}

/// What a board is.
pub struct Board {
    pub fps: Seq<Fp>,
    pub uses_codes: bool,
    pub net_table: Set<Seq<char>>,
}

impl View for BoardModel {
    type V = Board;

    open spec fn view(&self) -> Board {
        Board {
            fps: fps_view(self.fps@),
            uses_codes: self.uses_codes,
            net_table: texts(self.net_table@).to_set(),
        }
    }
}

impl BoardModel {
    /// The net table holds every name once, in ascending order.
    pub open spec fn well_formed(&self) -> bool {
        ascending(texts(self.net_table@))
    }
}

impl Default for BoardModel {
    fn default() -> (r: BoardModel)
        ensures
            r@ == (Board { fps: Seq::empty(), uses_codes: false, net_table: Set::empty() }),
            r.well_formed(),
    {
        let r = BoardModel { fps: Vec::new(), uses_codes: false, net_table: Vec::new() };
        assert(r@.fps =~= Seq::<Fp>::empty());
        assert(r@.net_table =~= Set::<Seq<char>>::empty());
        r
    }
}

/// The net name of a `(net …)` node: `(net <code> "name")` on coded boards or
/// `(net "name")` on name-only ones.
pub open spec fn net_label(net: Sexp) -> Option<Seq<char>> {
    match net.item(2) {
        Some(n) => n.text(),
        None => net.item_text(1),
    }
}

/// The net name that a pad carries.
pub open spec fn pad_net(pad: Sexp) -> Option<Seq<char>> {
    match pad.find("net"@) {
        Some(net) => net_label(net),
        None => None,
    }
}

/// The value of the last of the `(property …)` nodes that is called `key`.
pub open spec fn property_value(props: Seq<Sexp>, key: Seq<char>) -> Seq<char>
    decreases props.len(),
{
    if props.len() == 0 {
        Seq::empty()
    } else if props.last().item_text(1) == Some(key) {
        or_empty(props.last().item_text(2))
    } else {
        property_value(props.drop_last(), key)
    }
}

/// The pads that `(pad …)` nodes declare. One without a number counts for nothing.
pub open spec fn declared_board_pads(nodes: Seq<Sexp>) -> Seq<Pad>
    decreases nodes.len(),
{
    if nodes.len() == 0 {
        Seq::empty()
    } else {
        let before = declared_board_pads(nodes.drop_last());
        match nodes.last().item_text(1) {
            Some(number) => before.push(Pad { number, net: pad_net(nodes.last()) }),
            None => before,
        }
    }
}

/// The footprints that `(footprint …)` nodes declare. One without a reference
/// counts for nothing.
pub open spec fn declared_fps(nodes: Seq<Sexp>) -> Seq<Fp>
    decreases nodes.len(),
{
    if nodes.len() == 0 {
        Seq::empty()
    } else {
        let before = declared_fps(nodes.drop_last());
        let fp = nodes.last();
        let reference = property_value(fp.find_all("property"@), "Reference"@);
        if reference.len() == 0 {
            before
        } else {
            before.push(
                Fp {
                    reference,
                    value: property_value(fp.find_all("property"@), "Value"@),
                    footprint: or_empty(fp.item_text(1)),
                    pads: declared_board_pads(fp.find_all("pad"@)),
                },
            )
        }
    }
}

/// Does some top-level `(net …)` node carry a code beside its name?
pub open spec fn has_coded(nets: Seq<Sexp>) -> bool {
    exists|i: int| 0 <= i < nets.len() && (#[trigger] nets[i]).item(2) is Some
}

/// The names in the top-level net table: those of the coded `(net …)` nodes.
pub open spec fn table_names(nets: Seq<Sexp>) -> Set<Seq<char>>
    decreases nets.len(),
{
    if nets.len() == 0 {
        Set::empty()
    } else {
        match nets.last().item_text(2) {
            Some(name) => table_names(nets.drop_last()).insert(name),
            None => table_names(nets.drop_last()),
        }
    }
}

/// The board that a tree declares.
pub open spec fn board_of(tree: Sexp) -> Board {
    Board {
        fps: declared_fps(tree.find_all("footprint"@)),
        uses_codes: has_coded(tree.find_all("net"@)),
        net_table: table_names(tree.find_all("net"@)),
    }
}

/// The net name that a pad carries.
pub fn pad_net_name(pad: &SexpNode) -> (r: Option<String>)
    ensures
        opt_text(r) == pad_net(pad@),
{
    match pad.find("net") {
        Some(net) => {
            let label = match net.get(2) {
                Some(n) => n.as_str(),
                None => net.get_str(1),
            };
            match label {
                Some(t) => Some(t.to_owned()),
                None => None,
            }
        },
        None => None,
    }
}

/// The value of the last property of `fp` that is called `key`, or the empty text.
pub fn footprint_property(fp: &SexpNode, key: &str) -> (r: String)
    ensures
        r@ == property_value(fp@.find_all("property"@), key@),
{
    let props = fp.find_all("property");
    let ghost all = ref_trees(props@);
    let mut out = String::new();
    let mut i: usize = 0;
    while i < props.len()
        invariant
            i <= props@.len(),
            all == ref_trees(props@),
            out@ == property_value(all.take(i as int), key@),
        decreases props@.len() - i,
    {
        let p = props[i];
        proof {
            assert(all.take(i + 1).drop_last() =~= all.take(i as int));
            assert(all.take(i + 1).last() == p@);
        }
        if let Some(k) = p.get_str(1) {
            if same_text(k, key) {
                out = text_or_empty(p.get_str(2));
            }
        }
        i = i + 1;
    }
    assert(all.take(props@.len() as int) =~= all);
    out
}

fn read_pads(fp: &SexpNode) -> (r: Vec<BoardPad>)
    ensures
        pads_view(r@) == declared_board_pads(fp@.find_all("pad"@)),
{
    let nodes = fp.find_all("pad");
    let ghost all = ref_trees(nodes@);
    let mut out: Vec<BoardPad> = Vec::new();
    assert(pads_view(out@) =~= Seq::<Pad>::empty());
    let mut i: usize = 0;
    while i < nodes.len()
        invariant
            i <= nodes@.len(),
            all == ref_trees(nodes@),
            pads_view(out@) == declared_board_pads(all.take(i as int)),
        decreases nodes@.len() - i,
    {
        let pad = nodes[i];
        proof {
            assert(all.take(i + 1).drop_last() =~= all.take(i as int));
            assert(all.take(i + 1).last() == pad@);
        }
        if let Some(number) = pad.get_str(1) {
            let p = BoardPad { number: number.to_owned(), net: pad_net_name(pad) };
            assert(pads_view(out@.push(p)) =~= pads_view(out@).push(p@));
            out.push(p);
        }
        i = i + 1;
    }
    assert(all.take(nodes@.len() as int) =~= all);
    out
}

fn read_table(nets: &Vec<&SexpNode>) -> (r: (bool, Vec<String>))
    ensures
        r.0 == has_coded(ref_trees(nets@)),
        texts(r.1@).to_set() == table_names(ref_trees(nets@)),
        ascending(texts(r.1@)),
{
    let ghost all = ref_trees(nets@);
    let mut table: Vec<String> = Vec::new();
    let mut uses_codes = false;
    assert(texts(table@).to_set() =~= Set::<Seq<char>>::empty());
    let mut i: usize = 0;
    while i < nets.len()
        invariant
            i <= nets@.len(),
            all == ref_trees(nets@),
            uses_codes == has_coded(all.take(i as int)),
            texts(table@).to_set() == table_names(all.take(i as int)),
            ascending(texts(table@)),
        decreases nets@.len() - i,
    {
        let n = nets[i];
        let ghost coded = uses_codes;
        proof {
            assert(all.take(i + 1).drop_last() =~= all.take(i as int));
            assert(all.take(i + 1).last() == n@);
        }
        if n.get(2).is_some() {
            uses_codes = true;
        }
        proof {
            let more = all.take(i + 1);
            if n@.item(2) is Some {
                assert(more[i as int].item(2) is Some);
            } else if coded {
                let k = choose|k: int|
                    0 <= k < all.take(i as int).len() && (#[trigger] all.take(i as int)[k]).item(2)
                        is Some;
                assert(more[k].item(2) is Some);
            } else if has_coded(more) {
                let k = choose|k: int| 0 <= k < more.len() && (#[trigger] more[k]).item(2) is Some;
                assert(all.take(i as int)[k].item(2) is Some);
            }
        }
        if let Some(name) = n.get_str(2) {
            insert_ascending(&mut table, name.to_owned());
        }
        i = i + 1;
    }
    assert(all.take(nets@.len() as int) =~= all);
    (uses_codes, table)
}

/// Parse a `.kicad_pcb` into a [`BoardModel`] (footprints + net table).
pub fn parse_board(content: &str) -> (r: Result<BoardModel, SexpError>)
    ensures
        r matches Ok(b) ==> read_sexp(content@) is Some && b@ == board_of(read_sexp(content@)->0)
            && b.well_formed(),
        r is Err <==> read_sexp(content@) is None,
{
    let tree = match parse_sexp(content) {
        Ok(tree) => tree,
        Err(e) => {
            return Err(e);
        },
    };
    // `find_all` does not look inside the items, so this sees the table alone
    // and not the nets of pads.
    let (uses_codes, net_table) = read_table(&tree.find_all("net"));

    let nodes = tree.find_all("footprint");
    let ghost all = ref_trees(nodes@);
    let mut fps: Vec<BoardFp> = Vec::new();
    assert(fps_view(fps@) =~= Seq::<Fp>::empty());
    let mut i: usize = 0;
    while i < nodes.len()
        invariant
            i <= nodes@.len(),
            all == ref_trees(nodes@),
            fps_view(fps@) == declared_fps(all.take(i as int)),
        decreases nodes@.len() - i,
    {
        let node = nodes[i];
        proof {
            assert(all.take(i + 1).drop_last() =~= all.take(i as int));
            assert(all.take(i + 1).last() == node@);
        }
        let reference = footprint_property(node, "Reference");
        if !reference.as_str().is_empty() {
            let fp = BoardFp {
                reference,
                value: footprint_property(node, "Value"),
                footprint: text_or_empty(node.get_str(1)),
                pads: read_pads(node),
            };
            assert(fps_view(fps@.push(fp)) =~= fps_view(fps@).push(fp@));
            fps.push(fp);
        }
        i = i + 1;
    }
    assert(all.take(nodes@.len() as int) =~= all);
    Ok(BoardModel { fps, uses_codes, net_table })
}

// ─── Laws of a netlist ────────────────────────────────────────────────────────

proof fn lemma_with_nodes(
    m: Map<(Seq<char>, Seq<char>), Seq<char>>,
    nodes: Seq<Sexp>,
    name: Seq<char>,
    r: Seq<char>,
    p: Seq<char>,
)
    ensures
        ({
            let after = with_nodes(m, nodes, name);
            let listed = r.len() > 0 && p.len() > 0 && exists|j: int|
                0 <= j < nodes.len() && (#[trigger] nodes[j]).find_text("ref"@) == Some(r)
                    && nodes[j].find_text("pin"@) == Some(p);
            &&& listed ==> after.contains_key((r, p)) && after[(r, p)] == name
            &&& !listed ==> after.contains_key((r, p)) == m.contains_key((r, p))
            &&& !listed && m.contains_key((r, p)) ==> after[(r, p)] == m[(r, p)]
        }),
    decreases nodes.len(),
{
    if nodes.len() > 0 {
        let before = nodes.drop_last();
        let last = nodes[nodes.len() - 1];
        lemma_with_nodes(m, before, name, r, p);
        let own = last.find_text("ref"@) == Some(r) && last.find_text("pin"@) == Some(p);
        if r.len() > 0 && p.len() > 0 {
            if own {
                assert(nodes[nodes.len() - 1].find_text("ref"@) == Some(r));
            } else {
                let listed_before = exists|j: int|
                    0 <= j < before.len() && (#[trigger] before[j]).find_text("ref"@) == Some(r)
                        && before[j].find_text("pin"@) == Some(p);
                let listed = exists|j: int|
                    0 <= j < nodes.len() && (#[trigger] nodes[j]).find_text("ref"@) == Some(r)
                        && nodes[j].find_text("pin"@) == Some(p);
                if listed_before {
                    let j = choose|j: int|
                        0 <= j < before.len() && (#[trigger] before[j]).find_text("ref"@) == Some(r)
                            && before[j].find_text("pin"@) == Some(p);
                    assert(nodes[j] == before[j]);
                }
                if listed {
                    let j = choose|j: int|
                        0 <= j < nodes.len() && (#[trigger] nodes[j]).find_text("ref"@) == Some(r)
                            && nodes[j].find_text("pin"@) == Some(p);
                    assert(before[j] == nodes[j]);
                }
                assert(listed == listed_before);
            }
        }
    }
}

/// Does a net that has a name list the pad `p` of the component `r`?
spec fn lists_pad(net: Sexp, r: Seq<char>, p: Seq<char>) -> bool {
    &&& net.find_text("name"@) is Some
    &&& exists|j: int|
        0 <= j < net.find_all("node"@).len() && (#[trigger] net.find_all("node"@)[j]).find_text(
            "ref"@,
        ) == Some(r) && net.find_all("node"@)[j].find_text("pin"@) == Some(p)
}

proof fn lemma_last_lister(nets: Seq<Sexp>, i: int, r: Seq<char>, p: Seq<char>)
    requires
        r.len() > 0,
        p.len() > 0,
        0 <= i < nets.len(),
        lists_pad(nets[i], r, p),
        forall|k: int| i < k < nets.len() ==> !lists_pad(#[trigger] nets[k], r, p),
    ensures
        declared_pads(nets).contains_key((r, p)),
        Some(declared_pads(nets)[(r, p)]) == nets[i].find_text("name"@),
    decreases nets.len(),
{
    let before = nets.drop_last();
    let last = nets[nets.len() - 1];
    if let Some(name) = last.find_text("name"@) {
        lemma_with_nodes(declared_pads(before), last.find_all("node"@), name, r, p);
    }
    if i < nets.len() - 1 {
        assert(!lists_pad(last, r, p));
        assert(before[i] == nets[i]);
        assert forall|k: int| i < k < before.len() implies !lists_pad(
            #[trigger] before[k],
            r,
            p,
        ) by {
            assert(before[k] == nets[k]);
        }
        lemma_last_lister(before, i, r, p);
    }
}

proof fn lemma_pad_has_a_lister(nets: Seq<Sexp>, r: Seq<char>, p: Seq<char>) -> (i: int)
    requires
        declared_pads(nets).contains_key((r, p)),
    ensures
        r.len() > 0,
        p.len() > 0,
        0 <= i < nets.len(),
        lists_pad(nets[i], r, p),
        forall|k: int| i < k < nets.len() ==> !lists_pad(#[trigger] nets[k], r, p),
        Some(declared_pads(nets)[(r, p)]) == nets[i].find_text("name"@),
    decreases nets.len(),
{
    let before = nets.drop_last();
    let last = nets[nets.len() - 1];
    if let Some(name) = last.find_text("name"@) {
        lemma_with_nodes(declared_pads(before), last.find_all("node"@), name, r, p);
    }
    if r.len() > 0 && p.len() > 0 && lists_pad(last, r, p) {
        nets.len() - 1
    } else {
        let i = lemma_pad_has_a_lister(before, r, p);
        assert(before[i] == nets[i]);
        assert forall|k: int| i < k < nets.len() implies !lists_pad(#[trigger] nets[k], r, p) by {
            if k < nets.len() - 1 {
                assert(before[k] == nets[k]);
            }
        }
        i
    }
}

/// Every pad that a named net lists is in the pad map, under the reference and the pin of
/// its node, and its net is the last one that lists it. Whatever else the node carries does
/// not matter.
pub proof fn law_listed_pad_is_on_its_net(
    tree: Sexp,
    section: Sexp,
    i: int,
    j: int,
    name: Seq<char>,
    r: Seq<char>,
    p: Seq<char>,
)
    requires
        tree.find("nets"@) == Some(section),
        0 <= i < section.find_all("net"@).len(),
        section.find_all("net"@)[i].find_text("name"@) == Some(name),
        0 <= j < section.find_all("net"@)[i].find_all("node"@).len(),
        section.find_all("net"@)[i].find_all("node"@)[j].find_text("ref"@) == Some(r),
        section.find_all("net"@)[i].find_all("node"@)[j].find_text("pin"@) == Some(p),
        r.len() > 0,
        p.len() > 0,
        forall|k: int, l: int|
            i < k < section.find_all("net"@).len() && section.find_all("net"@)[k].find_text(
                "name"@,
            ) is Some && 0 <= l < section.find_all("net"@)[k].find_all("node"@).len() ==> !((
            #[trigger] section.find_all("net"@)[k].find_all("node"@)[l]).find_text("ref"@) == Some(
                r,
            ) && section.find_all("net"@)[k].find_all("node"@)[l].find_text("pin"@) == Some(p)),
    ensures
        netlist_of(tree).pad_nets.contains_key((r, p)),
        netlist_of(tree).pad_nets[(r, p)] == name,
{
    let nets = section.find_all("net"@);
    assert(lists_pad(nets[i], r, p)) by {
        assert(nets[i].find_all("node"@)[j].find_text("ref"@) == Some(r));
    }
    assert forall|k: int| i < k < nets.len() implies !lists_pad(#[trigger] nets[k], r, p) by {
        if lists_pad(nets[k], r, p) {
            let l = choose|l: int|
                0 <= l < nets[k].find_all("node"@).len() && (
                #[trigger] nets[k].find_all("node"@)[l]).find_text("ref"@) == Some(r)
                    && nets[k].find_all("node"@)[l].find_text("pin"@) == Some(p);
            assert(section.find_all("net"@)[k].find_all("node"@)[l].find_text("ref"@) == Some(r));
        }
    }
    lemma_last_lister(nets, i, r, p);
}

/// Every pad of the pad map comes from a node: some named net lists it, and the last one
/// that does is its net. No pad has an empty reference or an empty number.
pub proof fn law_pads_come_from_nodes(tree: Sexp, r: Seq<char>, p: Seq<char>)
    requires
        netlist_of(tree).pad_nets.contains_key((r, p)),
    ensures
        r.len() > 0,
        p.len() > 0,
        tree.find("nets"@) is Some,
        exists|i: int, j: int|
            0 <= i < tree.find("nets"@)->0.find_all("net"@).len() && 0 <= j < tree.find(
                "nets"@,
            )->0.find_all("net"@)[i].find_all("node"@).len() && (#[trigger] tree.find(
                "nets"@,
            )->0.find_all("net"@)[i].find_all("node"@)[j]).find_text("ref"@) == Some(r)
                && tree.find("nets"@)->0.find_all("net"@)[i].find_all("node"@)[j].find_text("pin"@)
                == Some(p) && tree.find("nets"@)->0.find_all("net"@)[i].find_text("name"@) == Some(
                netlist_of(tree).pad_nets[(r, p)],
            ),
{
    let nets = section_items(tree, "nets"@, "net"@);
    let i = lemma_pad_has_a_lister(nets, r, p);
    let j = choose|j: int|
        0 <= j < nets[i].find_all("node"@).len() && (#[trigger] nets[i].find_all(
            "node"@,
        )[j]).find_text("ref"@) == Some(r) && nets[i].find_all("node"@)[j].find_text("pin"@)
            == Some(p);
    let section = tree.find("nets"@)->0;
    assert(section.find_all("net"@)[i].find_all("node"@)[j].find_text("ref"@) == Some(r));
}

proof fn lemma_comps(nodes: Seq<Sexp>)
    ensures
        declared_comps(nodes) == nodes.filter(
            |c: Sexp| c.find_text("ref"@) matches Some(r) && r.len() > 0,
        ).map_values(
            |c: Sexp|
                Comp {
                    reference: c.find_text("ref"@)->0,
                    value: or_empty(c.find_text("value"@)),
                    footprint: or_empty(c.find_text("footprint"@)),
                },
        ),
    decreases nodes.len(),
{
    reveal(Seq::filter);
    let keep = |c: Sexp| c.find_text("ref"@) matches Some(r) && r.len() > 0;
    let comp = |c: Sexp|
        Comp {
            reference: c.find_text("ref"@)->0,
            value: or_empty(c.find_text("value"@)),
            footprint: or_empty(c.find_text("footprint"@)),
        };
    if nodes.len() > 0 {
        lemma_comps(nodes.drop_last());
        assert(declared_comps(nodes) =~= nodes.filter(keep).map_values(comp));
    } else {
        assert(declared_comps(nodes) =~= nodes.filter(keep).map_values(comp));
    }
}

/// The components of a netlist are those that its section of components declares with a
/// reference, in their order, each with the reference, the value and the footprint that its
/// own node gives.
pub proof fn law_components_of_a_netlist(tree: Sexp)
    ensures
        tree.find("components"@) matches Some(section) ==> netlist_of(tree).comps
            == section.find_all("comp"@).filter(
            |c: Sexp| c.find_text("ref"@) matches Some(r) && r.len() > 0,
        ).map_values(
            |c: Sexp|
                Comp {
                    reference: c.find_text("ref"@)->0,
                    value: match c.find_text("value"@) {
                        Some(t) => t,
                        None => Seq::empty(),
                    },
                    footprint: match c.find_text("footprint"@) {
                        Some(t) => t,
                        None => Seq::empty(),
                    },
                },
        ),
        tree.find("components"@) is None ==> netlist_of(tree).comps == Seq::<Comp>::empty(),
{
    if let Some(section) = tree.find("components"@) {
        let nodes = section.find_all("comp"@);
        lemma_comps(nodes);
        let kept = nodes.filter(|c: Sexp| c.find_text("ref"@) matches Some(r) && r.len() > 0);
        assert(netlist_of(tree).comps =~= kept.map_values(
            |c: Sexp|
                Comp {
                    reference: c.find_text("ref"@)->0,
                    value: match c.find_text("value"@) {
                        Some(t) => t,
                        None => Seq::empty(),
                    },
                    footprint: match c.find_text("footprint"@) {
                        Some(t) => t,
                        None => Seq::empty(),
                    },
                },
        ));
    }
}

proof fn lemma_names(nets: Seq<Sexp>)
    ensures
        declared_names(nets).no_duplicates(),
        forall|n: Seq<char>| #[trigger]
            declared_names(nets).contains(n) <==> exists|i: int|
                0 <= i < nets.len() && (#[trigger] nets[i]).find_text("name"@) == Some(n),
    decreases nets.len(),
{
    if nets.len() > 0 {
        let before = nets.drop_last();
        lemma_names(before);
        let old = declared_names(before);
        let all = declared_names(nets);
        let last = nets[nets.len() - 1];
        assert forall|n: Seq<char>| #[trigger] all.contains(n) <==> exists|i: int|
            0 <= i < nets.len() && (#[trigger] nets[i]).find_text("name"@) == Some(n) by {
            if all.contains(n) {
                if old.contains(n) {
                    let i = choose|i: int|
                        0 <= i < before.len() && (#[trigger] before[i]).find_text("name"@) == Some(
                            n,
                        );
                    assert(nets[i].find_text("name"@) == Some(n));
                } else {
                    let k = choose|k: int| 0 <= k < all.len() && all[k] == n;
                    assert(k == old.len()) by {
                        if k < old.len() {
                            assert(old[k] == n);
                        }
                    }
                    assert(last.find_text("name"@) == Some(n));
                }
            }
            if exists|i: int|
                0 <= i < nets.len() && (#[trigger] nets[i]).find_text("name"@) == Some(n) {
                let i = choose|i: int|
                    0 <= i < nets.len() && (#[trigger] nets[i]).find_text("name"@) == Some(n);
                if i < before.len() {
                    assert(before[i].find_text("name"@) == Some(n));
                    assert(old.contains(n));
                    let k = choose|k: int| 0 <= k < old.len() && old[k] == n;
                    assert(all[k] == n);
                } else if !old.contains(n) {
                    assert(all == old.push(n));
                    assert(all[old.len() as int] == n);
                } else {
                    assert(all == old);
                }
            }
        }
    }
}

proof fn lemma_name_order(nets: Seq<Sexp>, a: int, b: int) -> (i: int)
    requires
        0 <= a < b < declared_names(nets).len(),
    ensures
        0 <= i < nets.len(),
        nets[i].find_text("name"@) == Some(declared_names(nets)[a]),
        forall|j: int|
            0 <= j <= i ==> (#[trigger] nets[j]).find_text("name"@) != Some(
                declared_names(nets)[b],
            ),
    decreases nets.len(),
{
    let before = nets.drop_last();
    let old = declared_names(before);
    if b < old.len() {
        let i = lemma_name_order(before, a, b);
        assert(before[i] == nets[i]);
        assert forall|j: int| 0 <= j <= i implies (#[trigger] nets[j]).find_text("name"@) != Some(
            declared_names(nets)[b],
        ) by {
            assert(before[j] == nets[j]);
        }
        i
    } else {
        lemma_names(before);
        assert(old.contains(old[a]));
        let i = choose|i: int|
            0 <= i < before.len() && (#[trigger] before[i]).find_text("name"@) == Some(old[a]);
        let n = declared_names(nets)[b];
        assert(!old.contains(n));
        assert forall|j: int| 0 <= j <= i implies (#[trigger] nets[j]).find_text("name"@) != Some(
            n,
        ) by {
            assert(before[j] == nets[j]);
        }
        assert(before[i] == nets[i]);
        i
    }
}

/// The net names of a netlist are the names that its nets have, each once.
pub proof fn law_net_names_of_a_netlist(tree: Sexp, n: Seq<char>)
    ensures
        netlist_of(tree).net_names.no_duplicates(),
        netlist_of(tree).net_names.contains(n) <==> (tree.find("nets"@) matches Some(section)
            && exists|i: int|
            0 <= i < section.find_all("net"@).len() && (#[trigger] section.find_all(
                "net"@,
            )[i]).find_text("name"@) == Some(n)),
{
    lemma_names(section_items(tree, "nets"@, "net"@));
}

/// The net names of a netlist stand in the order in which they are first seen: before the
/// first net of a later name there is one of the earlier name.
pub proof fn law_net_names_keep_their_order(tree: Sexp, section: Sexp, a: int, b: int)
    requires
        tree.find("nets"@) == Some(section),
        0 <= a < b < netlist_of(tree).net_names.len(),
    ensures
        exists|i: int|
            0 <= i < section.find_all("net"@).len() && (#[trigger] section.find_all(
                "net"@,
            )[i]).find_text("name"@) == Some(netlist_of(tree).net_names[a]) && forall|j: int|
                0 <= j <= i ==> (#[trigger] section.find_all("net"@)[j]).find_text("name"@) != Some(
                    netlist_of(tree).net_names[b],
                ),
{
    let i = lemma_name_order(section.find_all("net"@), a, b);
    assert(section.find_all("net"@)[i].find_text("name"@) == Some(netlist_of(tree).net_names[a]));
}

// ─── Laws of a board ──────────────────────────────────────────────────────────

/// A property has the value that its last declaration gives; one that is not declared, or
/// is declared without a value, is empty.
pub proof fn law_last_property_counts(props: Seq<Sexp>, key: Seq<char>, k: int)
    requires
        forall|j: int|
            k < j < props.len() && 0 <= j ==> (#[trigger] props[j]).item_text(1) != Some(key),
        k < props.len(),
        k >= 0 ==> props[k].item_text(1) == Some(key),
    ensures
        k >= 0 ==> (props[k].item_text(2) matches Some(v) ==> property_value(props, key) == v),
        k < 0 || props[k].item_text(2) is None ==> property_value(props, key) == Seq::<
            char,
        >::empty(),
    decreases props.len(),
{
    if props.len() > 0 && k != props.len() - 1 {
        let before = props.drop_last();
        assert(props[props.len() - 1].item_text(1) != Some(key));
        assert forall|j: int| k < j < before.len() && 0 <= j implies (
        #[trigger] before[j]).item_text(1) != Some(key) by {
            assert(before[j] == props[j]);
        }
        law_last_property_counts(before, key, k);
    }
}

/// The net of a pad is the name in its first `net` item: the text behind the code where the
/// item has three parts or more, and the only text otherwise. A pad without such an item
/// has no net.
pub proof fn law_net_of_a_pad(pad: Sexp, net: Sexp)
    ensures
        pad.find("net"@) == Some(net) && net.items().len() > 2 ==> pad_net(pad)
            == net.items()[2].text(),
        pad.find("net"@) == Some(net) && net.items().len() == 2 ==> pad_net(pad)
            == net.items()[1].text(),
        pad.find("net"@) == Some(net) && net.items().len() < 2 ==> pad_net(pad) is None,
        pad.find("net"@) is None ==> pad_net(pad) is None,
{
}

proof fn lemma_board_pads(nodes: Seq<Sexp>)
    ensures
        declared_board_pads(nodes) == nodes.filter(|n: Sexp| n.item_text(1) is Some).map_values(
            |n: Sexp| Pad { number: n.item_text(1)->0, net: pad_net(n) },
        ),
    decreases nodes.len(),
{
    reveal(Seq::filter);
    let keep = |n: Sexp| n.item_text(1) is Some;
    let pad = |n: Sexp| Pad { number: n.item_text(1)->0, net: pad_net(n) };
    if nodes.len() > 0 {
        lemma_board_pads(nodes.drop_last());
    }
    assert(declared_board_pads(nodes) =~= nodes.filter(keep).map_values(pad));
}

/// What the node of a footprint declares.
spec fn fp_of(fp: Sexp) -> Fp {
    Fp {
        reference: property_value(fp.find_all("property"@), "Reference"@),
        value: property_value(fp.find_all("property"@), "Value"@),
        footprint: or_empty(fp.item_text(1)),
        pads: declared_board_pads(fp.find_all("pad"@)),
    }
}

proof fn lemma_fps(nodes: Seq<Sexp>)
    ensures
        declared_fps(nodes) == nodes.filter(
            |f: Sexp| property_value(f.find_all("property"@), "Reference"@).len() > 0,
        ).map_values(|f: Sexp| fp_of(f)),
    decreases nodes.len(),
{
    reveal(Seq::filter);
    let keep = |f: Sexp| property_value(f.find_all("property"@), "Reference"@).len() > 0;
    let fp = |f: Sexp| fp_of(f);
    if nodes.len() > 0 {
        lemma_fps(nodes.drop_last());
    }
    assert(declared_fps(nodes) =~= nodes.filter(keep).map_values(fp));
}

/// The footprints of a board are those with a reference, in their order, each with its own
/// reference, value and library name.
pub proof fn law_footprints_of_a_board(tree: Sexp, i: int)
    ensures
        ({
            let with_reference = tree.find_all("footprint"@).filter(
                |f: Sexp| property_value(f.find_all("property"@), "Reference"@).len() > 0,
            );
            let fps = board_of(tree).fps;
            &&& fps.len() == with_reference.len()
            &&& 0 <= i < fps.len() ==> {
                let f = with_reference[i];
                &&& fps[i].reference == property_value(f.find_all("property"@), "Reference"@)
                &&& fps[i].value == property_value(f.find_all("property"@), "Value"@)
                &&& f.item_text(1) matches Some(name) ==> fps[i].footprint == name
                &&& f.item_text(1) is None ==> fps[i].footprint == Seq::<char>::empty()
            }
        }),
{
    lemma_fps(tree.find_all("footprint"@));
}

/// The pads of a footprint are those with a number, in their order, each with its own
/// number and net.
pub proof fn law_pads_of_a_footprint(tree: Sexp, i: int, k: int)
    requires
        0 <= i < board_of(tree).fps.len(),
    ensures
        ({
            let with_reference = tree.find_all("footprint"@).filter(
                |f: Sexp| property_value(f.find_all("property"@), "Reference"@).len() > 0,
            );
            let numbered = with_reference[i].find_all("pad"@).filter(
                |n: Sexp| n.item_text(1) is Some,
            );
            let pads = board_of(tree).fps[i].pads;
            &&& pads.len() == numbered.len()
            &&& 0 <= k < pads.len() ==> Some(pads[k].number) == numbered[k].item_text(1)
                && pads[k].net == pad_net(numbered[k])
        }),
{
    lemma_fps(tree.find_all("footprint"@));
    let with_reference = tree.find_all("footprint"@).filter(
        |f: Sexp| property_value(f.find_all("property"@), "Reference"@).len() > 0,
    );
    let nodes = with_reference[i].find_all("pad"@);
    lemma_board_pads(nodes);
    assert(board_of(tree).fps[i].pads == declared_board_pads(nodes));
    let keep = |n: Sexp| n.item_text(1) is Some;
    if 0 <= k < nodes.filter(keep).len() {
        nodes.lemma_filter_pred(keep, k);
    }
}

proof fn lemma_table(nets: Seq<Sexp>, name: Seq<char>)
    ensures
        table_names(nets).contains(name) <==> exists|i: int|
            0 <= i < nets.len() && (#[trigger] nets[i]).item_text(2) == Some(name),
    decreases nets.len(),
{
    if nets.len() > 0 {
        let before = nets.drop_last();
        lemma_table(before, name);
        if table_names(before).contains(name) {
            let i = choose|i: int|
                0 <= i < before.len() && (#[trigger] before[i]).item_text(2) == Some(name);
            assert(nets[i].item_text(2) == Some(name));
        }
        if exists|i: int| 0 <= i < nets.len() && (#[trigger] nets[i]).item_text(2) == Some(name) {
            let i = choose|i: int|
                0 <= i < nets.len() && (#[trigger] nets[i]).item_text(2) == Some(name);
            if i < before.len() {
                assert(before[i].item_text(2) == Some(name));
            }
        }
        assert(nets[nets.len() - 1] == nets.last());
    }
}

/// A board keeps its nets by number where one of its net declarations has three parts, and
/// its net table holds the names that are declared in the third.
pub proof fn law_net_table_of_a_board(tree: Sexp, name: Seq<char>)
    ensures
        board_of(tree).uses_codes <==> exists|i: int|
            0 <= i < tree.find_all("net"@).len() && (#[trigger] tree.find_all(
                "net"@,
            )[i]).items().len() > 2,
        board_of(tree).net_table.contains(name) <==> exists|i: int|
            0 <= i < tree.find_all("net"@).len() && (#[trigger] tree.find_all("net"@)[i]).item_text(
                2,
            ) == Some(name),
{
    let nets = tree.find_all("net"@);
    lemma_table(nets, name);
    if has_coded(nets) {
        let i = choose|i: int| 0 <= i < nets.len() && (#[trigger] nets[i]).item(2) is Some;
        assert(nets[i].items().len() > 2);
    }
    if exists|i: int| 0 <= i < nets.len() && (#[trigger] nets[i]).items().len() > 2 {
        let i = choose|i: int| 0 <= i < nets.len() && (#[trigger] nets[i]).items().len() > 2;
        assert(nets[i].item(2) is Some);
    }
}

} // verus!
