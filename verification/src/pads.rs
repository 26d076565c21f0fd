//! Where the pads of a board are. A pad is placed within its footprint and the
//! footprint on the board; the coordinates are kept as the texts the file holds.
use vstd::prelude::*;
use crate::netlist::{or_empty, pad_net, pad_net_name, text_or_empty};
use crate::sexp::{ref_trees, Sexp, SexpNode};
use crate::text::{lemma_occurs_between, occurs, quoted, same_text};

verus! {

/// The position and rotation of a footprint on the board, as number texts.
#[derive(Debug, Clone, PartialEq)]
pub struct Placement {
    pub x: String,
    pub y: String,
    pub rotation: String,
}

/// What a placement is.
pub struct Place {
    pub x: Seq<char>,
    pub y: Seq<char>,
    pub rotation: Seq<char>,
}

impl View for Placement {
    type V = Place;

    open spec fn view(&self) -> Place {
        Place { x: self.x@, y: self.y@, rotation: self.rotation@ }
    }
}

/// One pad with what decides where it is on the board, and its net.
#[derive(Debug, Clone, PartialEq)]
pub struct PadRecord {
    pub reference: String,
    pub pad_number: String,
    pub net: String,
    /// Where the footprint of the pad is.
    pub placement: Placement,
    /// The position of the pad within its footprint, as number texts.
    pub x: String,
    pub y: String,
    pub through_hole: bool,
}

/// What a pad record is.
pub struct PlacedPad {
    pub reference: Seq<char>,
    pub pad_number: Seq<char>,
    pub net: Seq<char>,
    pub placement: Place,
    pub x: Seq<char>,
    pub y: Seq<char>,
    pub through_hole: bool,
}

impl View for PadRecord {
    type V = PlacedPad;

    open spec fn view(&self) -> PlacedPad {
        PlacedPad {
            reference: self.reference@,
            pad_number: self.pad_number@,
            net: self.net@,
            placement: self.placement@,
            x: self.x@,
            y: self.y@,
            through_hole: self.through_hole,
        }
    }
}

/// The pads that a list of records stands for.
pub open spec fn records_view(v: Seq<PadRecord>) -> Seq<PlacedPad> {
    Seq::new(v.len(), |i: int| v[i]@)
}

/// Why a pad was not found.
#[derive(Debug, Clone, Copy, PartialEq, Eq, Structural)]
pub enum PadLookupError {
    /// No footprint has the reference.
    FootprintNotFound,
    /// The footprint has no pad of that number.
    PadNotFound,
    /// The pad says nothing of its position.
    NoPosition,
}

impl PadLookupError {
    /// What the error says to the one who asked for `pad` on `reference`.
    pub open spec fn text(self, reference: Seq<char>, pad: Seq<char>) -> Seq<char> {
        match self {
            PadLookupError::FootprintNotFound => "Footprint '"@ + reference
                + "' not found on board"@,
            PadLookupError::PadNotFound => "Pad '"@ + pad + "' not found on '"@ + reference + "'"@,
            PadLookupError::NoPosition => "Pad has no (at) node"@,
        }
    }

    /// The error in words.
    pub fn message(self, reference: &str, pad: &str) -> (r: String)
        ensures
            r@ == self.text(reference@, pad@),
    {
        match self {
            PadLookupError::FootprintNotFound => quoted(
                "Footprint '",
                reference,
                "' not found on board",
            ),
            PadLookupError::PadNotFound => {
                let mut out = quoted("Pad '", pad, "' not found on '");
                out.append(reference);
                out.append("'");
                out
            },
            PadLookupError::NoPosition => "Pad has no (at) node".to_owned(),
        }
    }
}

// ─── What the file says ───────────────────────────────────────────────────────

/// The number at position `i` of a node, where there is a node and a number.
pub open spec fn number_or_zero(node: Option<Sexp>, i: int) -> Seq<char> {
    match node {
        Some(n) => match n.item_number(i) {
            Some(t) => t,
            None => "0"@,
        },
        None => "0"@,
    }
}

/// Where a footprint is placed. What its `(at …)` node leaves out is zero.
pub open spec fn placement_of(fp: Sexp) -> Place {
    Place {
        x: number_or_zero(fp.find("at"@), 1),
        y: number_or_zero(fp.find("at"@), 2),
        rotation: number_or_zero(fp.find("at"@), 3),
    }
}

/// Does one of the properties of `fp` give it the reference?
pub open spec fn has_reference(fp: Sexp, reference: Seq<char>) -> bool {
    let props = fp.find_all("property"@);
    exists|i: int|
        0 <= i < props.len() && (#[trigger] props[i]).item_text(1) == Some("Reference"@)
            && props[i].item_text(2) == Some(reference)
}

/// The first of the footprints that has the reference.
pub open spec fn footprint_called(fps: Seq<Sexp>, reference: Seq<char>) -> Option<Sexp>
    decreases fps.len(),
{
    if fps.len() == 0 {
        None
    } else {
        match footprint_called(fps.drop_last(), reference) {
            Some(fp) => Some(fp),
            None => if has_reference(fps.last(), reference) {
                Some(fps.last())
            } else {
                None
            },
        }
    }
}

/// The first of the pads that has the number.
pub open spec fn pad_numbered(pads: Seq<Sexp>, number: Seq<char>) -> Option<Sexp>
    decreases pads.len(),
{
    if pads.len() == 0 {
        None
    } else {
        match pad_numbered(pads.drop_last(), number) {
            Some(p) => Some(p),
            None => if pads.last().item_text(1) == Some(number) {
                Some(pads.last())
            } else {
                None
            },
        }
    }
}

/// Is the pad one that goes through the board?
pub open spec fn is_through_hole(pad: Sexp) -> bool {
    pad.item_text(2) == Some("thru_hole"@) || pad.item_text(2) == Some("np_thru_hole"@)
}

/// The pad that a `(pad …)` node of a footprint declares.
pub open spec fn placed_pad(reference: Seq<char>, placement: Place, pad: Sexp) -> PlacedPad {
    PlacedPad {
        reference,
        pad_number: or_empty(pad.item_text(1)),
        net: or_empty(pad_net(pad)),
        placement,
        x: number_or_zero(pad.find("at"@), 1),
        y: number_or_zero(pad.find("at"@), 2),
        through_hole: is_through_hole(pad),
    }
}

/// The pads of a footprint that have a number and a position, in order.
pub open spec fn placed_pads(reference: Seq<char>, placement: Place, pads: Seq<Sexp>) -> Seq<
    PlacedPad,
>
    decreases pads.len(),
{
    if pads.len() == 0 {
        Seq::empty()
    } else {
        let before = placed_pads(reference, placement, pads.drop_last());
        let pad = pads.last();
        if pad.item_text(1) is Some && pad.find("at"@) is Some {
            before.push(placed_pad(reference, placement, pad))
        } else {
            before
        }
    }
}

/// The value of the first of the properties that is called `key`.
pub open spec fn first_property(props: Seq<Sexp>, key: Seq<char>) -> Option<Sexp>
    decreases props.len(),
{
    if props.len() == 0 {
        None
    } else {
        match first_property(props.drop_last(), key) {
            Some(p) => Some(p),
            None => if props.last().item_text(1) == Some(key) {
                Some(props.last())
            } else {
                None
            },
        }
    }
}

/// The reference of a footprint: the value of its first `Reference` property.
pub open spec fn reference_of(fp: Sexp) -> Seq<char> {
    match first_property(fp.find_all("property"@), "Reference"@) {
        Some(p) => or_empty(p.item_text(2)),
        None => Seq::empty(),
    }
}

/// The pads of the footprints that have a reference, in order.
pub open spec fn board_pads(fps: Seq<Sexp>) -> Seq<PlacedPad>
    decreases fps.len(),
{
    if fps.len() == 0 {
        Seq::empty()
    } else {
        let before = board_pads(fps.drop_last());
        let fp = fps.last();
        if reference_of(fp).len() == 0 {
            before
        } else {
            before + placed_pads(reference_of(fp), placement_of(fp), fp.find_all("pad"@))
        }
    }
}

/// The pads of a footprint that have a number and a position made of two numbers,
/// in order.
pub open spec fn measured_pads(reference: Seq<char>, placement: Place, pads: Seq<Sexp>) -> Seq<
    PlacedPad,
>
    decreases pads.len(),
{
    if pads.len() == 0 {
        Seq::empty()
    } else {
        let before = measured_pads(reference, placement, pads.drop_last());
        let pad = pads.last();
        if pad.item_text(1) is Some && (pad.find("at"@) matches Some(at) && at.item_number(1) is Some
            && at.item_number(2) is Some) {
            before.push(placed_pad(reference, placement, pad))
        } else {
            before
        }
    }
}

/// The pads of the footprint called `reference`.
pub open spec fn component_pads_of(tree: Sexp, reference: Seq<char>) -> Option<Seq<PlacedPad>> {
    match footprint_called(tree.find_all("footprint"@), reference) {
        Some(fp) => Some(measured_pads(reference, placement_of(fp), fp.find_all("pad"@))),
        None => None,
    }
}

/// The pad numbered `number` of the footprint called `reference`.
pub open spec fn pad_site_of(tree: Sexp, reference: Seq<char>, number: Seq<char>) -> Result<
    PlacedPad,
    PadLookupError,
> {
    match footprint_called(tree.find_all("footprint"@), reference) {
        None => Err(PadLookupError::FootprintNotFound),
        Some(fp) => match pad_numbered(fp.find_all("pad"@), number) {
            None => Err(PadLookupError::PadNotFound),
            Some(pad) => if pad.find("at"@) is None {
                Err(PadLookupError::NoPosition)
            } else {
                Ok(placed_pad(reference, placement_of(fp), pad))
            },
        },
    }
}

// ─── Reading it ───────────────────────────────────────────────────────────────

fn number_text_or_zero(node: Option<&SexpNode>, i: usize) -> (r: String)
    ensures
        match node {
            Some(n) => r@ == number_or_zero(Some(n@), i as int),
            None => r@ == number_or_zero(None, i as int),
        },
{
    match node {
        Some(n) => match n.get_number(i) {
            Some(t) => t.to_owned(),
            None => "0".to_owned(),
        },
        None => "0".to_owned(),
    }
}

fn read_placement(fp: &SexpNode) -> (r: Placement)
    ensures
        r@ == placement_of(fp@),
{
    let at = fp.find("at");
    Placement {
        x: number_text_or_zero(at, 1),
        y: number_text_or_zero(at, 2),
        rotation: number_text_or_zero(at, 3),
    }
}

fn text_is(t: Option<&str>, what: &str) -> (r: bool)
    ensures
        match t {
            Some(x) => r == (x@ == what@),
            None => !r,
        },
{
    match t {
        Some(x) => same_text(x, what),
        None => false,
    }
}

fn is_called(fp: &SexpNode, reference: &str) -> (r: bool)
    ensures
        r == has_reference(fp@, reference@),
{
    let props = fp.find_all("property");
    let ghost all = ref_trees(props@);
    let mut i: usize = 0;
    while i < props.len()
        invariant
            i <= props@.len(),
            all == ref_trees(props@),
            all == fp@.find_all("property"@),
            forall|k: int|
                0 <= k < i ==> (#[trigger] all[k]).item_text(1) != Some("Reference"@)
                    || all[k].item_text(2) != Some(reference@),
        decreases props@.len() - i,
    {
        let p = props[i];
        assert(all[i as int] == p@);
        if text_is(p.get_str(1), "Reference") && text_is(p.get_str(2), reference) {
            return true;
        }
        i = i + 1;
    }
    false
}

fn find_footprint<'a>(fps: &Vec<&'a SexpNode>, reference: &str) -> (r: Option<&'a SexpNode>)
    ensures
        match r {
            Some(fp) => footprint_called(ref_trees(fps@), reference@) == Some(fp@),
            None => footprint_called(ref_trees(fps@), reference@) is None,
        },
{
    let ghost all = ref_trees(fps@);
    let mut found: Option<&'a SexpNode> = None;
    let mut i: usize = 0;
    while i < fps.len()
        invariant
            i <= fps@.len(),
            all == ref_trees(fps@),
            match found {
                Some(fp) => footprint_called(all.take(i as int), reference@) == Some(fp@),
                None => footprint_called(all.take(i as int), reference@) is None,
            },
        decreases fps@.len() - i,
    {
        let fp = fps[i];
        proof {
            assert(all.take(i + 1).drop_last() =~= all.take(i as int));
            assert(all.take(i + 1).last() == fp@);
        }
        if found.is_none() && is_called(fp, reference) {
            found = Some(fp);
        }
        i = i + 1;
    }
    assert(all.take(fps@.len() as int) =~= all);
    found
}

fn find_pad<'a>(pads: &Vec<&'a SexpNode>, number: &str) -> (r: Option<&'a SexpNode>)
    ensures
        match r {
            Some(p) => pad_numbered(ref_trees(pads@), number@) == Some(p@),
            None => pad_numbered(ref_trees(pads@), number@) is None,
        },
{
    let ghost all = ref_trees(pads@);
    let mut found: Option<&'a SexpNode> = None;
    let mut i: usize = 0;
    while i < pads.len()
        invariant
            i <= pads@.len(),
            all == ref_trees(pads@),
            match found {
                Some(p) => pad_numbered(all.take(i as int), number@) == Some(p@),
                None => pad_numbered(all.take(i as int), number@) is None,
            },
        decreases pads@.len() - i,
    {
        let p = pads[i];
        proof {
            assert(all.take(i + 1).drop_last() =~= all.take(i as int));
            assert(all.take(i + 1).last() == p@);
        }
        if found.is_none() && text_is(p.get_str(1), number) {
            found = Some(p);
        }
        i = i + 1;
    }
    assert(all.take(pads@.len() as int) =~= all);
    found
}

fn clone_placement(p: &Placement) -> (r: Placement)
    ensures
        r@ == p@,
{
    Placement { x: p.x.clone(), y: p.y.clone(), rotation: p.rotation.clone() }
}

fn read_pad(reference: &str, placement: &Placement, pad: &SexpNode) -> (r: PadRecord)
    ensures
        r@ == placed_pad(reference@, placement@, pad@),
{
    let at = pad.find("at");
    let net = match pad_net_name(pad) {
        Some(n) => n,
        None => String::new(),
    };
    PadRecord {
        reference: reference.to_owned(),
        pad_number: text_or_empty(pad.get_str(1)),
        net,
        placement: clone_placement(placement),
        x: number_text_or_zero(at, 1),
        y: number_text_or_zero(at, 2),
        through_hole: text_is(pad.get_str(2), "thru_hole") || text_is(
            pad.get_str(2),
            "np_thru_hole",
        ),
    }
}

fn read_placed_pads(reference: &str, fp: &SexpNode, out: &mut Vec<PadRecord>)
    ensures
        records_view(final(out)@) == records_view(old(out)@) + placed_pads(
            reference@,
            placement_of(fp@),
            fp@.find_all("pad"@),
        ),
{
    let placement = read_placement(fp);
    let pads = fp.find_all("pad");
    let ghost all = ref_trees(pads@);
    let ghost before = records_view(out@);
    let mut i: usize = 0;
    assert(before + placed_pads(reference@, placement@, all.take(0)) =~= before);
    while i < pads.len()
        invariant
            i <= pads@.len(),
            all == ref_trees(pads@),
            records_view(out@) == before + placed_pads(
                reference@,
                placement@,
                all.take(i as int),
            ),
        decreases pads@.len() - i,
    {
        let pad = pads[i];
        let ghost so_far = placed_pads(reference@, placement@, all.take(i as int));
        proof {
            assert(all.take(i + 1).drop_last() =~= all.take(i as int));
            assert(all.take(i + 1).last() == pad@);
        }
        if pad.get_str(1).is_some() && pad.find("at").is_some() {
            let p = read_pad(reference, &placement, pad);
            assert(records_view(out@.push(p)) =~= records_view(out@).push(p@));
            assert((before + so_far).push(p@) =~= before + so_far.push(p@));
            out.push(p);
        }
        i = i + 1;
    }
    assert(all.take(pads@.len() as int) =~= all);
}

fn read_reference(fp: &SexpNode) -> (r: String)
    ensures
        r@ == reference_of(fp@),
{
    let props = fp.find_all("property");
    let ghost all = ref_trees(props@);
    let mut found: Option<&SexpNode> = None;
    let mut i: usize = 0;
    while i < props.len()
        invariant
            i <= props@.len(),
            all == ref_trees(props@),
            match found {
                Some(p) => first_property(all.take(i as int), "Reference"@) == Some(p@),
                None => first_property(all.take(i as int), "Reference"@) is None,
            },
        decreases props@.len() - i,
    {
        let p = props[i];
        proof {
            assert(all.take(i + 1).drop_last() =~= all.take(i as int));
            assert(all.take(i + 1).last() == p@);
        }
        if found.is_none() && text_is(p.get_str(1), "Reference") {
            found = Some(p);
        }
        i = i + 1;
    }
    assert(all.take(props@.len() as int) =~= all);
    match found {
        Some(p) => text_or_empty(p.get_str(2)),
        None => String::new(),
    }
}

/// Every pad on the board that has a number and a position, with its net.
pub fn all_pads(tree: &SexpNode) -> (r: Vec<PadRecord>)
    ensures
        records_view(r@) == board_pads(tree@.find_all("footprint"@)),
{
    let fps = tree.find_all("footprint");
    let ghost all = ref_trees(fps@);
    let mut out: Vec<PadRecord> = Vec::new();
    assert(records_view(out@) =~= Seq::<PlacedPad>::empty());
    let mut i: usize = 0;
    while i < fps.len()
        invariant
            i <= fps@.len(),
            all == ref_trees(fps@),
            records_view(out@) == board_pads(all.take(i as int)),
        decreases fps@.len() - i,
    {
        let fp = fps[i];
        proof {
            assert(all.take(i + 1).drop_last() =~= all.take(i as int));
            assert(all.take(i + 1).last() == fp@);
        }
        let reference = read_reference(fp);
        if !reference.as_str().is_empty() {
            read_placed_pads(reference.as_str(), fp, &mut out);
        }
        i = i + 1;
    }
    assert(all.take(fps@.len() as int) =~= all);
    out
}

/// The pads of the footprint called `reference` that have a number and a position
/// made of two numbers, or `None` where there is no such footprint.
pub fn get_component_pads(tree: &SexpNode, reference: &str) -> (r: Option<Vec<PadRecord>>)
    ensures
        match r {
            Some(v) => component_pads_of(tree@, reference@) == Some(records_view(v@)),
            None => component_pads_of(tree@, reference@) is None,
        },
{
    let fp = match find_footprint(&tree.find_all("footprint"), reference) {
        Some(fp) => fp,
        None => {
            return None;
        },
    };
    let placement = read_placement(fp);
    let pads = fp.find_all("pad");
    let ghost all = ref_trees(pads@);
    let mut out: Vec<PadRecord> = Vec::new();
    assert(records_view(out@) =~= Seq::<PlacedPad>::empty());
    let mut i: usize = 0;
    while i < pads.len()
        invariant
            i <= pads@.len(),
            all == ref_trees(pads@),
            records_view(out@) == measured_pads(reference@, placement@, all.take(i as int)),
        decreases pads@.len() - i,
    {
        let pad = pads[i];
        proof {
            assert(all.take(i + 1).drop_last() =~= all.take(i as int));
            assert(all.take(i + 1).last() == pad@);
        }
        let measured = match pad.find("at") {
            Some(at) => at.get_number(1).is_some() && at.get_number(2).is_some(),
            None => false,
        };
        if pad.get_str(1).is_some() && measured {
            let p = read_pad(reference, &placement, pad);
            assert(records_view(out@.push(p)) =~= records_view(out@).push(p@));
            out.push(p);
        }
        i = i + 1;
    }
    assert(all.take(pads@.len() as int) =~= all);
    Some(out)
}

/// The first of the pads that has the number.
pub open spec fn record_numbered(pads: Seq<PlacedPad>, number: Seq<char>) -> Option<PlacedPad>
    decreases pads.len(),
{
    if pads.len() == 0 {
        None
    } else {
        match record_numbered(pads.drop_last(), number) {
            Some(p) => Some(p),
            None => if pads.last().pad_number == number {
                Some(pads.last())
            } else {
                None
            },
        }
    }
}

/// The first of `pads` that has the number.
pub fn get_pad_position<'a>(pads: &'a Vec<PadRecord>, number: &str) -> (r: Option<&'a PadRecord>)
    ensures
        match r {
            Some(p) => record_numbered(records_view(pads@), number@) == Some(p@),
            None => record_numbered(records_view(pads@), number@) is None,
        },
{
    let ghost all = records_view(pads@);
    let mut found: Option<&'a PadRecord> = None;
    let mut i: usize = 0;
    while i < pads.len()
        invariant
            i <= pads@.len(),
            all == records_view(pads@),
            match found {
                Some(p) => record_numbered(all.take(i as int), number@) == Some(p@),
                None => record_numbered(all.take(i as int), number@) is None,
            },
        decreases pads@.len() - i,
    {
        let p = &pads[i];
        proof {
            assert(all.take(i + 1).drop_last() =~= all.take(i as int));
            assert(all.take(i + 1).last() == p@);
        }
        if found.is_none() && same_text(p.pad_number.as_str(), number) {
            found = Some(p);
        }
        i = i + 1;
    }
    assert(all.take(pads@.len() as int) =~= all);
    found
}

/// The pad numbered `pad_number` of the footprint called `reference`, with what
/// decides where it is on the board.
pub fn find_pad_board_position(tree: &SexpNode, reference: &str, pad_number: &str) -> (r: Result<
    PadRecord,
    PadLookupError,
>)
    ensures
        match r {
            Ok(p) => pad_site_of(tree@, reference@, pad_number@) == Ok::<PlacedPad, PadLookupError>(
                p@,
            ),
            Err(e) => pad_site_of(tree@, reference@, pad_number@) == Err::<
                PlacedPad,
                PadLookupError,
            >(e),
        },
{
    let fp = match find_footprint(&tree.find_all("footprint"), reference) {
        Some(fp) => fp,
        None => {
            return Err(PadLookupError::FootprintNotFound);
        },
    };
    let pad = match find_pad(&fp.find_all("pad"), pad_number) {
        Some(p) => p,
        None => {
            return Err(PadLookupError::PadNotFound);
        },
    };
    if pad.find("at").is_none() {
        return Err(PadLookupError::NoPosition);
    }
    Ok(read_pad(reference, &read_placement(fp), pad))
}

// ─── Laws ─────────────────────────────────────────────────────────────────────

proof fn lemma_footprint_called(fps: Seq<Sexp>, reference: Seq<char>)
    ensures
        footprint_called(fps, reference) matches Some(fp) ==> exists|i: int|
            0 <= i < fps.len() && #[trigger] fps[i] == fp,
    decreases fps.len(),
{
    if fps.len() > 0 {
        let before = fps.drop_last();
        lemma_footprint_called(before, reference);
        match footprint_called(before, reference) {
            Some(fp) => {
                let i = choose|i: int| 0 <= i < before.len() && #[trigger] before[i] == fp;
                assert(fps[i] == fp);
            },
            None => {
                assert(fps[fps.len() - 1] == fps.last());
            },
        }
    }
}

proof fn lemma_pad_numbered(pads: Seq<Sexp>, number: Seq<char>)
    ensures
        pad_numbered(pads, number) matches Some(p) ==> p.item_text(1) == Some(number) && exists|i:
            int| 0 <= i < pads.len() && #[trigger] pads[i] == p,
    decreases pads.len(),
{
    if pads.len() > 0 {
        let before = pads.drop_last();
        lemma_pad_numbered(before, number);
        match pad_numbered(before, number) {
            Some(p) => {
                let i = choose|i: int| 0 <= i < before.len() && #[trigger] before[i] == p;
                assert(pads[i] == p);
            },
            None => {
                assert(pads[pads.len() - 1] == pads.last());
            },
        }
    }
}

proof fn lemma_pad_listed(reference: Seq<char>, placement: Place, pads: Seq<Sexp>, i: int)
    requires
        0 <= i < pads.len(),
        pads[i].item_text(1) is Some,
        pads[i].find("at"@) is Some,
    ensures
        placed_pads(reference, placement, pads).contains(
            placed_pad(reference, placement, pads[i]),
        ),
    decreases pads.len(),
{
    let all = placed_pads(reference, placement, pads);
    let before = placed_pads(reference, placement, pads.drop_last());
    let pad = placed_pad(reference, placement, pads[i]);
    if i == pads.len() - 1 {
        assert(all[all.len() - 1] == pad);
    } else {
        assert(pads.drop_last()[i] == pads[i]);
        lemma_pad_listed(reference, placement, pads.drop_last(), i);
        let k = choose|k: int| 0 <= k < before.len() && before[k] == pad;
        assert(all[k] == pad);
    }
}

proof fn lemma_board_pad_listed(fps: Seq<Sexp>, i: int, pad: PlacedPad)
    requires
        0 <= i < fps.len(),
        reference_of(fps[i]).len() > 0,
        placed_pads(
            reference_of(fps[i]),
            placement_of(fps[i]),
            fps[i].find_all("pad"@),
        ).contains(pad),
    ensures
        board_pads(fps).contains(pad),
    decreases fps.len(),
{
    let all = board_pads(fps);
    let before = board_pads(fps.drop_last());
    if i == fps.len() - 1 {
        let own = placed_pads(
            reference_of(fps[i]),
            placement_of(fps[i]),
            fps[i].find_all("pad"@),
        );
        let k = choose|k: int| 0 <= k < own.len() && own[k] == pad;
        assert(all[before.len() + k] == pad);
    } else {
        assert(fps.drop_last()[i] == fps[i]);
        lemma_board_pad_listed(fps.drop_last(), i, pad);
        let k = choose|k: int| 0 <= k < before.len() && before[k] == pad;
        assert(all[k] == pad);
    }
}

/// A pad that is looked up by its footprint and number is one of those of the whole
/// board, with the same position and net, where the reference is what the footprint is
/// listed under.
pub proof fn law_found_pad_is_listed(tree: Sexp, reference: Seq<char>, number: Seq<char>)
    requires
        pad_site_of(tree, reference, number) is Ok,
        reference.len() > 0,
        reference_of(footprint_called(tree.find_all("footprint"@), reference)->0) == reference,
    ensures
        board_pads(tree.find_all("footprint"@)).contains(
            pad_site_of(tree, reference, number)->Ok_0,
        ),
        pad_site_of(tree, reference, number)->Ok_0.pad_number == number,
{
    let fps = tree.find_all("footprint"@);
    let fp = footprint_called(fps, reference)->0;
    let pads = fp.find_all("pad"@);
    let pad = pad_numbered(pads, number)->0;
    lemma_footprint_called(fps, reference);
    lemma_pad_numbered(pads, number);
    let i = choose|i: int| 0 <= i < fps.len() && #[trigger] fps[i] == fp;
    let k = choose|k: int| 0 <= k < pads.len() && #[trigger] pads[k] == pad;
    lemma_pad_listed(reference, placement_of(fp), pads, k);
    lemma_board_pad_listed(fps, i, placed_pad(reference, placement_of(fp), pad));
}

proof fn lemma_only_footprint(fps: Seq<Sexp>, reference: Seq<char>, i: int)
    requires
        0 <= i < fps.len(),
        has_reference(fps[i], reference),
        forall|j: int|
            0 <= j < fps.len() && j != i ==> !has_reference(#[trigger] fps[j], reference),
    ensures
        footprint_called(fps, reference) == Some(fps[i]),
    decreases fps.len(),
{
    let before = fps.drop_last();
    if i < fps.len() - 1 {
        assert(before[i] == fps[i]);
        assert forall|j: int| 0 <= j < before.len() && j != i implies !has_reference(
            #[trigger] before[j],
            reference,
        ) by {
            assert(before[j] == fps[j]);
        }
        lemma_only_footprint(before, reference, i);
    } else {
        assert forall|j: int| 0 <= j < before.len() implies !has_reference(
            #[trigger] before[j],
            reference,
        ) by {
            assert(before[j] == fps[j]);
        }
        lemma_no_footprint(before, reference);
    }
}

proof fn lemma_no_footprint(fps: Seq<Sexp>, reference: Seq<char>)
    requires
        forall|j: int| 0 <= j < fps.len() ==> !has_reference(#[trigger] fps[j], reference),
    ensures
        footprint_called(fps, reference) is None,
    decreases fps.len(),
{
    if fps.len() > 0 {
        assert(!has_reference(fps[fps.len() - 1], reference));
        assert forall|j: int| 0 <= j < fps.drop_last().len() implies !has_reference(
            #[trigger] fps.drop_last()[j],
            reference,
        ) by {
            assert(fps.drop_last()[j] == fps[j]);
        }
        lemma_no_footprint(fps.drop_last(), reference);
    }
}

proof fn lemma_only_pad(pads: Seq<Sexp>, number: Seq<char>, i: int)
    requires
        0 <= i < pads.len(),
        pads[i].item_text(1) == Some(number),
        forall|j: int|
            0 <= j < pads.len() && j != i ==> (#[trigger] pads[j]).item_text(1) != Some(number),
    ensures
        pad_numbered(pads, number) == Some(pads[i]),
    decreases pads.len(),
{
    let before = pads.drop_last();
    if i < pads.len() - 1 {
        assert(before[i] == pads[i]);
        assert forall|j: int| 0 <= j < before.len() && j != i implies (
        #[trigger] before[j]).item_text(1) != Some(number) by {
            assert(before[j] == pads[j]);
        }
        lemma_only_pad(before, number, i);
    } else {
        lemma_pad_numbered(before, number);
        if let Some(p) = pad_numbered(before, number) {
            let j = choose|j: int| 0 <= j < before.len() && #[trigger] before[j] == p;
            assert(pads[j] == p);
        }
    }
}

/// The footprint that is listed under a reference has it.
proof fn lemma_reference_of(props: Seq<Sexp>, key: Seq<char>)
    ensures
        first_property(props, key) matches Some(p) ==> p.item_text(1) == Some(key) && exists|i:
            int| 0 <= i < props.len() && #[trigger] props[i] == p,
    decreases props.len(),
{
    if props.len() > 0 {
        let before = props.drop_last();
        lemma_reference_of(before, key);
        match first_property(before, key) {
            Some(p) => {
                let i = choose|i: int| 0 <= i < before.len() && #[trigger] before[i] == p;
                assert(props[i] == p);
            },
            None => {
                assert(props[props.len() - 1] == props.last());
            },
        }
    }
}

/// Which `(pad …)` node a pad of a footprint comes from.
proof fn lemma_pad_origin(
    reference: Seq<char>,
    placement: Place,
    pads: Seq<Sexp>,
    k: int,
) -> (i: int)
    requires
        0 <= k < placed_pads(reference, placement, pads).len(),
    ensures
        0 <= i < pads.len(),
        pads[i].item_text(1) is Some,
        pads[i].find("at"@) is Some,
        placed_pads(reference, placement, pads)[k] == placed_pad(reference, placement, pads[i]),
    decreases pads.len(),
{
    let before = placed_pads(reference, placement, pads.drop_last());
    if k < before.len() {
        let i = lemma_pad_origin(reference, placement, pads.drop_last(), k);
        assert(pads.drop_last()[i] == pads[i]);
        i
    } else {
        pads.len() - 1
    }
}

/// Which footprint a pad of the board comes from, and which `(pad …)` node of it.
proof fn lemma_board_pad_origin(fps: Seq<Sexp>, k: int) -> (r: (int, int))
    requires
        0 <= k < board_pads(fps).len(),
    ensures
        0 <= r.0 < fps.len(),
        reference_of(fps[r.0]).len() > 0,
        ({
            let fp = fps[r.0];
            let pads = fp.find_all("pad"@);
            &&& 0 <= r.1 < pads.len()
            &&& pads[r.1].item_text(1) is Some
            &&& pads[r.1].find("at"@) is Some
            &&& board_pads(fps)[k] == placed_pad(reference_of(fp), placement_of(fp), pads[r.1])
        }),
    decreases fps.len(),
{
    let before = board_pads(fps.drop_last());
    let fp = fps.last();
    if k < before.len() {
        let r = lemma_board_pad_origin(fps.drop_last(), k);
        assert(fps.drop_last()[r.0] == fps[r.0]);
        r
    } else {
        let i = lemma_pad_origin(
            reference_of(fp),
            placement_of(fp),
            fp.find_all("pad"@),
            k - before.len(),
        );
        (fps.len() - 1, i)
    }
}

/// A pad of the whole board is found by its footprint and number, with the same position
/// and net, where no other footprint has the reference and no other pad of that footprint
/// the number.
pub proof fn law_listed_pad_is_found(tree: Sexp, k: int)
    requires
        0 <= k < board_pads(tree.find_all("footprint"@)).len(),
        ({
            let fps = tree.find_all("footprint"@);
            let pad = board_pads(fps)[k];
            &&& forall|i: int, j: int|
                0 <= i < j < fps.len() ==> !(has_reference(#[trigger] fps[i], pad.reference)
                    && has_reference(#[trigger] fps[j], pad.reference))
            &&& forall|i: int, m: int, n: int|
                0 <= i < fps.len() && has_reference(fps[i], pad.reference) && 0 <= m < n
                    < fps[i].find_all("pad"@).len() ==> !((#[trigger] fps[i].find_all(
                    "pad"@,
                )[m]).item_text(1) == Some(pad.pad_number) && (#[trigger] fps[i].find_all(
                    "pad"@,
                )[n]).item_text(1) == Some(pad.pad_number))
        }),
    ensures
        ({
            let pad = board_pads(tree.find_all("footprint"@))[k];
            pad_site_of(tree, pad.reference, pad.pad_number) == Ok::<PlacedPad, PadLookupError>(pad)
        }),
{
    let fps = tree.find_all("footprint"@);
    let pad = board_pads(fps)[k];
    let (i, m) = lemma_board_pad_origin(fps, k);
    let fp = fps[i];
    let props = fp.find_all("property"@);
    let pads = fp.find_all("pad"@);
    lemma_reference_of(props, "Reference"@);
    let p = first_property(props, "Reference"@)->0;
    let n = choose|n: int| 0 <= n < props.len() && #[trigger] props[n] == p;
    assert(props[n].item_text(2) == Some(pad.reference));
    assert(has_reference(fp, pad.reference));
    assert forall|j: int| 0 <= j < fps.len() && j != i implies !has_reference(
        #[trigger] fps[j],
        pad.reference,
    ) by {
        assert(has_reference(fps[i], pad.reference));
    }
    lemma_only_footprint(fps, pad.reference, i);
    assert(pads[m].item_text(1) == Some(pad.pad_number));
    assert forall|j: int| 0 <= j < pads.len() && j != m implies (#[trigger] pads[j]).item_text(1)
        != Some(pad.pad_number) by {
        assert(fps[i].find_all("pad"@)[m].item_text(1) == Some(pad.pad_number));
        assert(fps[i].find_all("pad"@)[j] == pads[j]);
    }
    lemma_only_pad(pads, pad.pad_number, m);
}

// ─── What a listed pad carries ────────────────────────────────────────────────

/// Is `t` the number at position `i` of the node, or zero where there is none?
pub open spec fn is_number_at(t: Seq<char>, node: Option<Sexp>, i: int) -> bool {
    if node is Some && node->0.item_number(i) is Some {
        node->0.item_number(i) == Some(t)
    } else {
        t == "0"@
    }
}

/// Is the record that of the pad `node` of the footprint `fp`: with the place and the
/// rotation of the footprint, and with the number, the net and the position of the pad?
pub open spec fn is_record_of(pad: PlacedPad, reference: Seq<char>, fp: Sexp, node: Sexp) -> bool {
    &&& pad.reference == reference
    &&& is_number_at(pad.placement.x, fp.find("at"@), 1)
    &&& is_number_at(pad.placement.y, fp.find("at"@), 2)
    &&& is_number_at(pad.placement.rotation, fp.find("at"@), 3)
    &&& node.item_text(1) == Some(pad.pad_number)
    &&& pad_net(node) matches Some(net) ==> pad.net == net
    &&& pad_net(node) is None ==> pad.net == Seq::<char>::empty()
    &&& is_number_at(pad.x, node.find("at"@), 1)
    &&& is_number_at(pad.y, node.find("at"@), 2)
    &&& pad.through_hole <==> node.item_text(2) == Some("thru_hole"@) || node.item_text(2) == Some(
        "np_thru_hole"@,
    )
}

proof fn lemma_measured_pads(reference: Seq<char>, fp: Sexp, pads: Seq<Sexp>)
    ensures
        measured_pads(reference, placement_of(fp), pads) == pads.filter(
            |p: Sexp|
                p.item_text(1) is Some && p.find("at"@) is Some && p.find("at"@)->0.item_number(
                    1,
                ) is Some && p.find("at"@)->0.item_number(2) is Some,
        ).map_values(|p: Sexp| placed_pad(reference, placement_of(fp), p)),
    decreases pads.len(),
{
    reveal(Seq::filter);
    let keep = |p: Sexp|
        p.item_text(1) is Some && p.find("at"@) is Some && p.find("at"@)->0.item_number(1) is Some
            && p.find("at"@)->0.item_number(2) is Some;
    let record = |p: Sexp| placed_pad(reference, placement_of(fp), p);
    if pads.len() > 0 {
        lemma_measured_pads(reference, fp, pads.drop_last());
    }
    assert(measured_pads(reference, placement_of(fp), pads) =~= pads.filter(keep).map_values(
        record,
    ));
}

proof fn lemma_placed_pads(reference: Seq<char>, fp: Sexp, pads: Seq<Sexp>)
    ensures
        placed_pads(reference, placement_of(fp), pads) == pads.filter(
            |p: Sexp| p.item_text(1) is Some && p.find("at"@) is Some,
        ).map_values(|p: Sexp| placed_pad(reference, placement_of(fp), p)),
    decreases pads.len(),
{
    reveal(Seq::filter);
    let keep = |p: Sexp| p.item_text(1) is Some && p.find("at"@) is Some;
    let record = |p: Sexp| placed_pad(reference, placement_of(fp), p);
    if pads.len() > 0 {
        lemma_placed_pads(reference, fp, pads.drop_last());
    }
    assert(placed_pads(reference, placement_of(fp), pads) =~= pads.filter(keep).map_values(record));
}

proof fn lemma_first_footprint(fps: Seq<Sexp>, reference: Seq<char>, f: int)
    requires
        0 <= f < fps.len(),
        has_reference(fps[f], reference),
        forall|j: int| 0 <= j < f ==> !has_reference(#[trigger] fps[j], reference),
    ensures
        footprint_called(fps, reference) == Some(fps[f]),
    decreases fps.len(),
{
    let before = fps.drop_last();
    if f < before.len() {
        assert(before[f] == fps[f]);
        assert forall|j: int| 0 <= j < f implies !has_reference(
            #[trigger] before[j],
            reference,
        ) by {
            assert(before[j] == fps[j]);
        }
        lemma_first_footprint(before, reference, f);
    } else {
        assert forall|j: int| 0 <= j < before.len() implies !has_reference(
            #[trigger] before[j],
            reference,
        ) by {
            assert(before[j] == fps[j]);
        }
        lemma_no_footprint(before, reference);
    }
}

/// The pads of a component are those of the first footprint that has its reference, in
/// order: all that have a number and a position, and each with the place and the rotation
/// of that footprint, its own number, net and position.
pub proof fn law_component_pads_are_the_footprints(
    tree: Sexp,
    reference: Seq<char>,
    f: int,
    n: int,
    k: int,
)
    requires
        0 <= f < tree.find_all("footprint"@).len(),
        0 <= n < tree.find_all("footprint"@)[f].find_all("property"@).len(),
        ({
            let prop = tree.find_all("footprint"@)[f].find_all("property"@)[n];
            prop.item_text(1) == Some("Reference"@) && prop.item_text(2) == Some(reference)
        }),
        forall|g: int, m: int|
            0 <= g < f && 0 <= m < tree.find_all("footprint"@)[g].find_all("property"@).len()
                ==> !((#[trigger] tree.find_all("footprint"@)[g].find_all("property"@)[m]).item_text(
                1,
            ) == Some("Reference"@) && tree.find_all("footprint"@)[g].find_all(
                "property"@,
            )[m].item_text(2) == Some(reference)),
    ensures
        component_pads_of(tree, reference) is Some,
        ({
            let fp = tree.find_all("footprint"@)[f];
            let nodes = fp.find_all("pad"@).filter(
                |p: Sexp|
                    p.item_text(1) is Some && p.find("at"@) is Some && p.find("at"@)->0.item_number(
                        1,
                    ) is Some && p.find("at"@)->0.item_number(2) is Some,
            );
            let pads = component_pads_of(tree, reference)->0;
            &&& pads.len() == nodes.len()
            &&& 0 <= k < pads.len() ==> is_record_of(pads[k], reference, fp, nodes[k])
        }),
{
    let fps = tree.find_all("footprint"@);
    let fp = fps[f];
    assert(has_reference(fp, reference)) by {
        assert(fp.find_all("property"@)[n].item_text(1) == Some("Reference"@));
    }
    assert forall|g: int| 0 <= g < f implies !has_reference(#[trigger] fps[g], reference) by {
        if has_reference(fps[g], reference) {
            let props = fps[g].find_all("property"@);
            let m = choose|m: int|
                0 <= m < props.len() && (#[trigger] props[m]).item_text(1) == Some("Reference"@)
                    && props[m].item_text(2) == Some(reference);
            assert(tree.find_all("footprint"@)[g].find_all("property"@)[m].item_text(1) == Some(
                "Reference"@,
            ));
        }
    }
    lemma_first_footprint(fps, reference, f);
    let nodes = fp.find_all("pad"@);
    lemma_measured_pads(reference, fp, nodes);
    let keep = |p: Sexp|
        p.item_text(1) is Some && p.find("at"@) is Some && p.find("at"@)->0.item_number(1) is Some
            && p.find("at"@)->0.item_number(2) is Some;
    if 0 <= k < nodes.filter(keep).len() {
        nodes.lemma_filter_pred(keep, k);
    }
}

/// A reference that no footprint has is not found, neither with its pads nor with one of
/// them.
pub proof fn law_unknown_reference(tree: Sexp, reference: Seq<char>, number: Seq<char>)
    requires
        forall|g: int, m: int|
            0 <= g < tree.find_all("footprint"@).len() && 0 <= m < tree.find_all(
                "footprint"@,
            )[g].find_all("property"@).len() ==> !((#[trigger] tree.find_all(
                "footprint"@,
            )[g].find_all("property"@)[m]).item_text(1) == Some("Reference"@) && tree.find_all(
                "footprint"@,
            )[g].find_all("property"@)[m].item_text(2) == Some(reference)),
    ensures
        component_pads_of(tree, reference) is None,
        pad_site_of(tree, reference, number) == Err::<PlacedPad, PadLookupError>(
            PadLookupError::FootprintNotFound,
        ),
{
    let fps = tree.find_all("footprint"@);
    assert forall|g: int| 0 <= g < fps.len() implies !has_reference(
        #[trigger] fps[g],
        reference,
    ) by {
        if has_reference(fps[g], reference) {
            let props = fps[g].find_all("property"@);
            let m = choose|m: int|
                0 <= m < props.len() && (#[trigger] props[m]).item_text(1) == Some("Reference"@)
                    && props[m].item_text(2) == Some(reference);
            assert(tree.find_all("footprint"@)[g].find_all("property"@)[m].item_text(1) == Some(
                "Reference"@,
            ));
        }
    }
    lemma_no_footprint(fps, reference);
}

proof fn lemma_first_numbered(pads: Seq<Sexp>, number: Seq<char>, k: int)
    requires
        0 <= k <= pads.len(),
        forall|j: int| 0 <= j < k ==> (#[trigger] pads[j]).item_text(1) != Some(number),
        k < pads.len() ==> pads[k].item_text(1) == Some(number),
    ensures
        k < pads.len() ==> pad_numbered(pads, number) == Some(pads[k]),
        k == pads.len() ==> pad_numbered(pads, number) is None,
    decreases pads.len(),
{
    if pads.len() > 0 {
        let before = pads.drop_last();
        let m = if k == pads.len() {
            k - 1
        } else {
            k
        };
        assert forall|j: int| 0 <= j < m implies (#[trigger] before[j]).item_text(1) != Some(
            number,
        ) by {
            assert(before[j] == pads[j]);
        }
        assert(k == pads.len() ==> pads[k - 1].item_text(1) != Some(number));
        if m < before.len() {
            assert(before[m] == pads[m]);
        }
        lemma_first_numbered(before, number, m);
    }
}

/// A pad that is looked up is the first of its number on the first footprint of its
/// reference, with the place and the rotation of that footprint, and its own number, net
/// and position. One that does not exist, or has no position, is an error of its own.
pub proof fn law_looked_up_pad_is_the_footprints(
    tree: Sexp,
    reference: Seq<char>,
    number: Seq<char>,
    f: int,
    k: int,
)
    requires
        0 <= f < tree.find_all("footprint"@).len(),
        has_reference(tree.find_all("footprint"@)[f], reference),
        forall|g: int|
            0 <= g < f ==> !has_reference(#[trigger] tree.find_all("footprint"@)[g], reference),
        0 <= k <= tree.find_all("footprint"@)[f].find_all("pad"@).len(),
        forall|j: int|
            0 <= j < k ==> (#[trigger] tree.find_all("footprint"@)[f].find_all("pad"@)[j]).item_text(
                1,
            ) != Some(number),
        k < tree.find_all("footprint"@)[f].find_all("pad"@).len() ==> tree.find_all(
            "footprint"@,
        )[f].find_all("pad"@)[k].item_text(1) == Some(number),
    ensures
        ({
            let fp = tree.find_all("footprint"@)[f];
            let pads = fp.find_all("pad"@);
            let site = pad_site_of(tree, reference, number);
            &&& k == pads.len() ==> site == Err::<PlacedPad, PadLookupError>(
                PadLookupError::PadNotFound,
            )
            &&& k < pads.len() && pads[k].find("at"@) is None ==> site == Err::<
                PlacedPad,
                PadLookupError,
            >(PadLookupError::NoPosition)
            &&& k < pads.len() && pads[k].find("at"@) is Some ==> (site matches Ok(pad)
                && is_record_of(pad, reference, fp, pads[k]))
        }),
{
    let fps = tree.find_all("footprint"@);
    lemma_first_footprint(fps, reference, f);
    lemma_first_numbered(fps[f].find_all("pad"@), number, k);
}

/// Which `(pad …)` node a pad of a component comes from.
proof fn lemma_measured_origin(
    reference: Seq<char>,
    placement: Place,
    pads: Seq<Sexp>,
    k: int,
) -> (i: int)
    requires
        0 <= k < measured_pads(reference, placement, pads).len(),
    ensures
        0 <= i < pads.len(),
        pads[i].item_text(1) is Some,
        pads[i].find("at"@) is Some,
        measured_pads(reference, placement, pads)[k] == placed_pad(reference, placement, pads[i]),
    decreases pads.len(),
{
    let before = measured_pads(reference, placement, pads.drop_last());
    if k < before.len() {
        let i = lemma_measured_origin(reference, placement, pads.drop_last(), k);
        assert(pads.drop_last()[i] == pads[i]);
        i
    } else {
        pads.len() - 1
    }
}

/// Listing the pads of a component and looking one of them up agree: a pad that is listed,
/// and whose number no other pad of the footprint has, is what a look-up by the same
/// reference and number gives.
pub proof fn law_component_pad_is_found(tree: Sexp, reference: Seq<char>, k: int)
    requires
        component_pads_of(tree, reference) matches Some(pads) && 0 <= k < pads.len(),
        ({
            let nodes = footprint_called(tree.find_all("footprint"@), reference)->0.find_all(
                "pad"@,
            );
            let number = component_pads_of(tree, reference)->0[k].pad_number;
            forall|i: int, j: int|
                0 <= i < j < nodes.len() ==> !((#[trigger] nodes[i]).item_text(1) == Some(number)
                    && (#[trigger] nodes[j]).item_text(1) == Some(number))
        }),
    ensures
        ({
            let pad = component_pads_of(tree, reference)->0[k];
            pad_site_of(tree, reference, pad.pad_number) == Ok::<PlacedPad, PadLookupError>(pad)
        }),
{
    let fp = footprint_called(tree.find_all("footprint"@), reference)->0;
    let nodes = fp.find_all("pad"@);
    let number = component_pads_of(tree, reference)->0[k].pad_number;
    let i = lemma_measured_origin(reference, placement_of(fp), nodes, k);
    assert(nodes[i].item_text(1) == Some(number));
    assert forall|j: int| 0 <= j < nodes.len() && j != i implies (#[trigger] nodes[j]).item_text(1)
        != Some(number) by {
        assert(nodes[i].item_text(1) == Some(number));
    }
    lemma_only_pad(nodes, number, i);
}

proof fn lemma_first_property(props: Seq<Sexp>, key: Seq<char>, k: int)
    requires
        0 <= k <= props.len(),
        forall|j: int| 0 <= j < k ==> (#[trigger] props[j]).item_text(1) != Some(key),
        k < props.len() ==> props[k].item_text(1) == Some(key),
    ensures
        k < props.len() ==> first_property(props, key) == Some(props[k]),
        k == props.len() ==> first_property(props, key) is None,
    decreases props.len(),
{
    if props.len() > 0 {
        let before = props.drop_last();
        let m = if k == props.len() {
            k - 1
        } else {
            k
        };
        assert forall|j: int| 0 <= j < m implies (#[trigger] before[j]).item_text(1) != Some(
            key,
        ) by {
            assert(before[j] == props[j]);
        }
        assert(k == props.len() ==> props[k - 1].item_text(1) != Some(key));
        if m < before.len() {
            assert(before[m] == props[m]);
        }
        lemma_first_property(before, key, m);
    }
}

/// A footprint is listed under the value of its first property that is called `Reference`.
pub proof fn law_reference_of_a_footprint(fp: Sexp, k: int)
    requires
        0 <= k <= fp.find_all("property"@).len(),
        forall|j: int|
            0 <= j < k ==> (#[trigger] fp.find_all("property"@)[j]).item_text(1) != Some(
                "Reference"@,
            ),
        k < fp.find_all("property"@).len() ==> fp.find_all("property"@)[k].item_text(1) == Some(
            "Reference"@,
        ),
    ensures
        k < fp.find_all("property"@).len() ==> (fp.find_all("property"@)[k].item_text(
            2,
        ) matches Some(t) ==> reference_of(fp) == t),
        k < fp.find_all("property"@).len() && fp.find_all("property"@)[k].item_text(2) is None
            ==> reference_of(fp) == Seq::<char>::empty(),
        k == fp.find_all("property"@).len() ==> reference_of(fp) == Seq::<char>::empty(),
{
    lemma_first_property(fp.find_all("property"@), "Reference"@, k);
}

/// The pads of a board are those of its footprints, one footprint after the other.
pub proof fn law_board_pads_footprint_by_footprint(a: Seq<Sexp>, b: Seq<Sexp>)
    ensures
        board_pads(a + b) == board_pads(a) + board_pads(b),
    decreases b.len(),
{
    if b.len() == 0 {
        assert(a + b =~= a);
        assert(board_pads(a) + board_pads(b) =~= board_pads(a));
    } else {
        law_board_pads_footprint_by_footprint(a, b.drop_last());
        assert((a + b).drop_last() =~= a + b.drop_last());
        assert((a + b).last() == b.last());
        assert(board_pads(a + b) =~= board_pads(a) + board_pads(b));
    }
}

/// The pads of one footprint are all that have a number and a position, in order, each with
/// the place and the rotation of the footprint, its own number, net and position; those of a
/// footprint without a reference count for nothing.
pub proof fn law_board_pads_of_a_footprint(fp: Sexp, k: int)
    ensures
        reference_of(fp).len() == 0 ==> board_pads(seq![fp]).len() == 0,
        reference_of(fp).len() > 0 ==> {
            let nodes = fp.find_all("pad"@).filter(
                |p: Sexp| p.item_text(1) is Some && p.find("at"@) is Some,
            );
            let pads = board_pads(seq![fp]);
            &&& pads.len() == nodes.len()
            &&& 0 <= k < pads.len() ==> is_record_of(pads[k], reference_of(fp), fp, nodes[k])
        },
{
    let one = seq![fp];
    let nodes = fp.find_all("pad"@);
    assert(one.drop_last() =~= Seq::<Sexp>::empty());
    assert(board_pads(one.drop_last()) =~= Seq::<PlacedPad>::empty());
    if reference_of(fp).len() > 0 {
        lemma_placed_pads(reference_of(fp), fp, nodes);
        assert(board_pads(one) =~= placed_pads(reference_of(fp), placement_of(fp), nodes));
        let keep = |p: Sexp| p.item_text(1) is Some && p.find("at"@) is Some;
        if 0 <= k < nodes.filter(keep).len() {
            nodes.lemma_filter_pred(keep, k);
        }
    }
}

/// Among pads that are listed, the first that has the number is the one that is found.
pub proof fn law_first_record_is_found(pads: Seq<PlacedPad>, number: Seq<char>, k: int)
    requires
        0 <= k <= pads.len(),
        forall|j: int| 0 <= j < k ==> (#[trigger] pads[j]).pad_number != number,
        k < pads.len() ==> pads[k].pad_number == number,
    ensures
        k < pads.len() ==> record_numbered(pads, number) == Some(pads[k]),
        k == pads.len() ==> record_numbered(pads, number) is None,
    decreases pads.len(),
{
    if pads.len() > 0 {
        let before = pads.drop_last();
        let m = if k == pads.len() {
            k - 1
        } else {
            k
        };
        assert forall|j: int| 0 <= j < m implies (#[trigger] before[j]).pad_number != number by {
            assert(before[j] == pads[j]);
        }
        assert(k == pads.len() ==> pads[k - 1].pad_number != number);
        if m < before.len() {
            assert(before[m] == pads[m]);
        }
        law_first_record_is_found(before, number, m);
    }
}

/// An error says which component and which pad were asked for, as far as it is about them.
pub proof fn law_lookup_errors_name_what_was_asked_for(reference: Seq<char>, pad: Seq<char>)
    ensures
        occurs(PadLookupError::FootprintNotFound.text(reference, pad), reference),
        occurs(PadLookupError::PadNotFound.text(reference, pad), reference),
        occurs(PadLookupError::PadNotFound.text(reference, pad), pad),
{
    lemma_occurs_between("Footprint '"@, reference, "' not found on board"@);
    lemma_occurs_between("Pad '"@ + pad + "' not found on '"@, reference, "'"@);
    let rest = "' not found on '"@ + reference + "'"@;
    lemma_occurs_between("Pad '"@, pad, rest);
    assert("Pad '"@ + pad + rest =~= PadLookupError::PadNotFound.text(reference, pad));
}

} // verus!
