//! The board-vs-schematic diff: what has to change on the board, and what can
//! only be reported.
use vstd::prelude::*;
use crate::netlist::{
    comps_view, fps_view, law_listed_pad_is_on_its_net, netlist_of, opt_text, pads_view, Board,
    BoardFp, BoardModel, BoardPad, Comp, Connectivity, Fp, Netlist, NlComp, Pad,
};
use crate::order::{has_text, texts};
use crate::sexp::Sexp;
use crate::text::{chars_of, is_match_at, matches_at};

verus! {

/// A single pad whose net must change to match the schematic.
#[derive(Debug, Clone, PartialEq)]
pub struct PadNetChange {
    pub reference: String,
    pub pad: String,
    pub old: Option<String>,
    pub new: String,
}

/// What a pad net change is.
pub struct PadChange {
    pub reference: Seq<char>,
    pub pad: Seq<char>,
    pub old: Option<Seq<char>>,
    pub new: Seq<char>,
}

impl View for PadNetChange {
    type V = PadChange;

    open spec fn view(&self) -> PadChange {
        PadChange {
            reference: self.reference@,
            pad: self.pad@,
            old: opt_text(self.old),
            new: self.new@,
        }
    }
}

/// A component whose value on the board differs from the schematic.
#[derive(Debug, Clone, PartialEq)]
pub struct ValueChange {
    pub reference: String,
    pub old: String,
    pub new: String,
}

/// What a value change is.
pub struct NewValue {
    pub reference: Seq<char>,
    pub old: Seq<char>,
    pub new: Seq<char>,
}

impl View for ValueChange {
    type V = NewValue;

    open spec fn view(&self) -> NewValue {
        NewValue { reference: self.reference@, old: self.old@, new: self.new@ }
    }
}

/// The full board-vs-schematic diff: actionable changes plus warnings for
/// everything the file-only path deliberately does not touch.
#[derive(Debug, Clone)]
pub struct Plan {
    /// Pad net reassignments to apply.
    pub pad_net_changes: Vec<PadNetChange>,
    /// Component value updates to apply.
    pub value_changes: Vec<ValueChange>,
    /// Net names referenced by a change but missing from a coded board's net
    /// table (empty for name-only boards, which need no table). First-seen order.
    pub nets_to_add: Vec<String>,
    /// Components in the schematic but not on the board — need placement
    /// (footprint geometry / IPC), which the file path can't do. Warning only.
    pub missing_on_board: Vec<String>,
    /// Components on the board but not in the schematic — deletion candidates.
    /// Not removed automatically. Warning only.
    pub extra_on_board: Vec<String>,
    /// `(reference, board_footprint, schematic_footprint)` where the footprint
    /// id differs — refootprinting needs new geometry. Warning only.
    pub footprint_mismatches: Vec<(String, String, String)>,
    /// `(reference, pad)` pads that carry a net on the board but have no node
    /// in the schematic netlist. Left untouched. Informational.
    pub unmatched_board_pads: Vec<(String, String)>,
}

/// What a plan is.
pub struct Diff {
    pub pad_net_changes: Seq<PadChange>,
    pub value_changes: Seq<NewValue>,
    pub nets_to_add: Seq<Seq<char>>,
    pub missing_on_board: Seq<Seq<char>>,
    pub extra_on_board: Seq<Seq<char>>,
    pub footprint_mismatches: Seq<(Seq<char>, Seq<char>, Seq<char>)>,
    pub unmatched_board_pads: Seq<(Seq<char>, Seq<char>)>,
}

/// The changes that a list of them stands for.
pub open spec fn changes_view(v: Seq<PadNetChange>) -> Seq<PadChange> {
    Seq::new(v.len(), |i: int| v[i]@)
}

/// The value changes that a list of them stands for.
pub open spec fn values_view(v: Seq<ValueChange>) -> Seq<NewValue> {
    Seq::new(v.len(), |i: int| v[i]@)
}

/// The texts of a list of pairs.
pub open spec fn pairs_view(v: Seq<(String, String)>) -> Seq<(Seq<char>, Seq<char>)> {
    Seq::new(v.len(), |i: int| (v[i].0@, v[i].1@))
}

/// The texts of a list of triples.
pub open spec fn triples_view(v: Seq<(String, String, String)>) -> Seq<
    (Seq<char>, Seq<char>, Seq<char>),
> {
    Seq::new(v.len(), |i: int| (v[i].0@, v[i].1@, v[i].2@))
}

impl View for Plan {
    type V = Diff;

    open spec fn view(&self) -> Diff {
        Diff {
            pad_net_changes: changes_view(self.pad_net_changes@),
            value_changes: values_view(self.value_changes@),
            nets_to_add: texts(self.nets_to_add@),
            missing_on_board: texts(self.missing_on_board@),
            extra_on_board: texts(self.extra_on_board@),
            footprint_mismatches: triples_view(self.footprint_mismatches@),
            unmatched_board_pads: pairs_view(self.unmatched_board_pads@),
        }
    }
}

impl Diff {
    /// Is there nothing to apply?
    pub open spec fn nothing_to_apply(self) -> bool {
        self.pad_net_changes.len() == 0 && self.value_changes.len() == 0
    }
}

impl Default for Plan {
    fn default() -> (r: Plan)
        ensures
            r@ == (Diff {
                pad_net_changes: Seq::empty(),
                value_changes: Seq::empty(),
                nets_to_add: Seq::empty(),
                missing_on_board: Seq::empty(),
                extra_on_board: Seq::empty(),
                footprint_mismatches: Seq::empty(),
                unmatched_board_pads: Seq::empty(),
            }),
    {
        let r = Plan {
            pad_net_changes: Vec::new(),
            value_changes: Vec::new(),
            nets_to_add: Vec::new(),
            missing_on_board: Vec::new(),
            extra_on_board: Vec::new(),
            footprint_mismatches: Vec::new(),
            unmatched_board_pads: Vec::new(),
        };
        proof {
            assert(r@.pad_net_changes =~= Seq::<PadChange>::empty());
            assert(r@.value_changes =~= Seq::<NewValue>::empty());
            assert(r@.nets_to_add =~= Seq::<Seq<char>>::empty());
            assert(r@.missing_on_board =~= Seq::<Seq<char>>::empty());
            assert(r@.extra_on_board =~= Seq::<Seq<char>>::empty());
            assert(r@.footprint_mismatches =~= Seq::<(Seq<char>, Seq<char>, Seq<char>)>::empty());
            assert(r@.unmatched_board_pads =~= Seq::<(Seq<char>, Seq<char>)>::empty());
        }
        r
    }
}

impl Plan {
    /// Are there no changes to apply?
    pub fn is_empty(&self) -> (r: bool)
        ensures
            r == self@.nothing_to_apply(),
    {
        self.pad_net_changes.len() == 0 && self.value_changes.len() == 0
    }
}

// ─── What a plan has to say ───────────────────────────────────────────────────

/// Is `name` one of the nets that KiCad makes up for a pad that is to stay
/// unconnected?
pub open spec fn is_unconnected(name: Seq<char>) -> bool {
    matches_at(name, "unconnected-"@, 0)
}

/// The schematic component called `reference`: the last one of that name.
pub open spec fn comp_for(comps: Seq<Comp>, reference: Seq<char>) -> Option<Comp>
    decreases comps.len(),
{
    if comps.len() == 0 {
        None
    } else if comps.last().reference == reference {
        Some(comps.last())
    } else {
        comp_for(comps.drop_last(), reference)
    }
}

/// The net that the schematic gives to a pad.
pub open spec fn desired_net(nl: Connectivity, reference: Seq<char>, pad: Seq<char>) -> Option<
    Seq<char>,
> {
    if nl.pad_nets.dom().contains((reference, pad)) {
        Some(nl.pad_nets[(reference, pad)])
    } else {
        None
    }
}

/// The change that a pad needs. A pad is never put on an `unconnected-*` net:
/// KiCad gives every pad that stays open a net of its own, and the exported
/// netlist folds those onto one name.
pub open spec fn pad_change(nl: Connectivity, reference: Seq<char>, pad: Pad) -> Option<PadChange> {
    match desired_net(nl, reference, pad.number) {
        Some(net) => if is_unconnected(net) || pad.net == Some(net) {
            None
        } else {
            Some(PadChange { reference, pad: pad.number, old: pad.net, new: net })
        },
        None => None,
    }
}

/// Does the pad carry a net on the board that the schematic knows nothing of?
pub open spec fn is_unmatched(nl: Connectivity, reference: Seq<char>, pad: Pad) -> bool {
    desired_net(nl, reference, pad.number) is None && (pad.net matches Some(n) && n.len() > 0)
}

/// The changes that the pads of one footprint need, in order.
pub open spec fn pads_changes(nl: Connectivity, reference: Seq<char>, pads: Seq<Pad>) -> Seq<
    PadChange,
>
    decreases pads.len(),
{
    if pads.len() == 0 {
        Seq::empty()
    } else {
        let before = pads_changes(nl, reference, pads.drop_last());
        match pad_change(nl, reference, pads.last()) {
            Some(c) => before.push(c),
            None => before,
        }
    }
}

/// The pads of one footprint that carry a net the schematic knows nothing of.
pub open spec fn pads_unmatched(nl: Connectivity, reference: Seq<char>, pads: Seq<Pad>) -> Seq<
    (Seq<char>, Seq<char>),
>
    decreases pads.len(),
{
    if pads.len() == 0 {
        Seq::empty()
    } else {
        let before = pads_unmatched(nl, reference, pads.drop_last());
        if is_unmatched(nl, reference, pads.last()) {
            before.push((reference, pads.last().number))
        } else {
            before
        }
    }
}

/// The pad changes of the footprints that the schematic has, in order.
pub open spec fn all_changes(nl: Connectivity, fps: Seq<Fp>) -> Seq<PadChange>
    decreases fps.len(),
{
    if fps.len() == 0 {
        Seq::empty()
    } else {
        let before = all_changes(nl, fps.drop_last());
        let fp = fps.last();
        if comp_for(nl.comps, fp.reference) is Some {
            before + pads_changes(nl, fp.reference, fp.pads)
        } else {
            before
        }
    }
}

/// The unmatched pads of the footprints that the schematic has, in order.
pub open spec fn all_unmatched(nl: Connectivity, fps: Seq<Fp>) -> Seq<(Seq<char>, Seq<char>)>
    decreases fps.len(),
{
    if fps.len() == 0 {
        Seq::empty()
    } else {
        let before = all_unmatched(nl, fps.drop_last());
        let fp = fps.last();
        if comp_for(nl.comps, fp.reference) is Some {
            before + pads_unmatched(nl, fp.reference, fp.pads)
        } else {
            before
        }
    }
}

/// The value change that a footprint needs.
pub open spec fn value_change(nl: Connectivity, fp: Fp) -> Option<NewValue> {
    match comp_for(nl.comps, fp.reference) {
        Some(c) => if c.value.len() > 0 && c.value != fp.value {
            Some(NewValue { reference: fp.reference, old: fp.value, new: c.value })
        } else {
            None
        },
        None => None,
    }
}

/// The value changes that the footprints need, in order.
pub open spec fn all_values(nl: Connectivity, fps: Seq<Fp>) -> Seq<NewValue>
    decreases fps.len(),
{
    if fps.len() == 0 {
        Seq::empty()
    } else {
        let before = all_values(nl, fps.drop_last());
        match value_change(nl, fps.last()) {
            Some(c) => before.push(c),
            None => before,
        }
    }
}

/// The footprints whose footprint id is not the schematic's, in order.
pub open spec fn all_mismatches(nl: Connectivity, fps: Seq<Fp>) -> Seq<
    (Seq<char>, Seq<char>, Seq<char>),
>
    decreases fps.len(),
{
    if fps.len() == 0 {
        Seq::empty()
    } else {
        let before = all_mismatches(nl, fps.drop_last());
        let fp = fps.last();
        match comp_for(nl.comps, fp.reference) {
            Some(c) => if c.footprint.len() > 0 && c.footprint != fp.footprint {
                before.push((fp.reference, fp.footprint, c.footprint))
            } else {
                before
            },
            None => before,
        }
    }
}

/// The references on the board that the schematic does not have, in order.
pub open spec fn all_extra(nl: Connectivity, fps: Seq<Fp>) -> Seq<Seq<char>>
    decreases fps.len(),
{
    if fps.len() == 0 {
        Seq::empty()
    } else {
        let before = all_extra(nl, fps.drop_last());
        if comp_for(nl.comps, fps.last().reference) is Some {
            before
        } else {
            before.push(fps.last().reference)
        }
    }
}

/// Is there a footprint called `reference`?
pub open spec fn on_board(fps: Seq<Fp>, reference: Seq<char>) -> bool {
    exists|i: int| 0 <= i < fps.len() && (#[trigger] fps[i]).reference == reference
}

/// The references in the schematic that the board does not have, in order.
pub open spec fn all_missing(comps: Seq<Comp>, fps: Seq<Fp>) -> Seq<Seq<char>>
    decreases comps.len(),
{
    if comps.len() == 0 {
        Seq::empty()
    } else {
        let before = all_missing(comps.drop_last(), fps);
        if on_board(fps, comps.last().reference) {
            before
        } else {
            before.push(comps.last().reference)
        }
    }
}

/// The nets that the changes lead to and the net table of a coded board lacks,
/// each once, in first-seen order.
pub open spec fn new_nets(board: Board, changes: Seq<PadChange>) -> Seq<Seq<char>>
    decreases changes.len(),
{
    if changes.len() == 0 || !board.uses_codes {
        Seq::empty()
    } else {
        let before = new_nets(board, changes.drop_last());
        let net = changes.last().new;
        if board.net_table.contains(net) || before.contains(net) {
            before
        } else {
            before.push(net)
        }
    }
}

/// The diff of a board against a schematic.
pub open spec fn diff(nl: Connectivity, board: Board) -> Diff {
    let changes = all_changes(nl, board.fps);
    Diff {
        pad_net_changes: changes,
        value_changes: all_values(nl, board.fps),
        nets_to_add: new_nets(board, changes),
        missing_on_board: all_missing(nl.comps, board.fps),
        extra_on_board: all_extra(nl, board.fps),
        footprint_mismatches: all_mismatches(nl, board.fps),
        unmatched_board_pads: all_unmatched(nl, board.fps),
    }
}

// ─── Making the plan ──────────────────────────────────────────────────────────

fn find_comp<'a>(comps: &'a Vec<NlComp>, reference: &String) -> (r: Option<&'a NlComp>)
    ensures
        r matches Some(c) ==> comp_for(comps_view(comps@), reference@) == Some(c@),
        r is None ==> comp_for(comps_view(comps@), reference@) is None,
{
    let ghost all = comps_view(comps@);
    let mut i: usize = comps.len();
    assert(all.take(i as int) =~= all);
    while i > 0
        invariant
            i <= comps@.len(),
            all == comps_view(comps@),
            comp_for(all, reference@) == comp_for(all.take(i as int), reference@),
        decreases i,
    {
        let ghost upto = all.take(i as int);
        i = i - 1;
        let c = &comps[i];
        proof {
            assert(upto.drop_last() =~= all.take(i as int));
            assert(upto.last() == c@);
        }
        if c.reference == *reference {
            return Some(c);
        }
    }
    None
}

fn has_footprint(fps: &Vec<BoardFp>, reference: &String) -> (r: bool)
    ensures
        r == on_board(fps_view(fps@), reference@),
{
    let mut i: usize = 0;
    while i < fps.len()
        invariant
            i <= fps@.len(),
            forall|j: int| 0 <= j < i ==> (#[trigger] fps_view(fps@)[j]).reference != reference@,
        decreases fps@.len() - i,
    {
        if fps[i].reference == *reference {
            assert(fps_view(fps@)[i as int].reference == reference@);
            return true;
        }
        i = i + 1;
    }
    false
}

fn missing_comps(comps: &Vec<NlComp>, fps: &Vec<BoardFp>) -> (r: Vec<String>)
    ensures
        texts(r@) == all_missing(comps_view(comps@), fps_view(fps@)),
{
    let ghost all = comps_view(comps@);
    let mut out: Vec<String> = Vec::new();
    assert(texts(out@) =~= Seq::<Seq<char>>::empty());
    let mut i: usize = 0;
    while i < comps.len()
        invariant
            i <= comps@.len(),
            all == comps_view(comps@),
            texts(out@) == all_missing(all.take(i as int), fps_view(fps@)),
        decreases comps@.len() - i,
    {
        let c = &comps[i];
        proof {
            assert(all.take(i + 1).drop_last() =~= all.take(i as int));
            assert(all.take(i + 1).last() == c@);
        }
        if !has_footprint(fps, &c.reference) {
            let t = c.reference.clone();
            assert(texts(out@.push(t)) =~= texts(out@).push(t@));
            out.push(t);
        }
        i = i + 1;
    }
    assert(all.take(comps@.len() as int) =~= all);
    out
}

fn same_net(net: &Option<String>, name: &String) -> (r: bool)
    ensures
        r == (opt_text(*net) == Some(name@)),
{
    match net {
        Some(n) => *n == *name,
        None => false,
    }
}

fn starts_unconnected(name: &String) -> (r: bool)
    ensures
        r == is_unconnected(name@),
{
    is_match_at(&chars_of(name.as_str()), &chars_of("unconnected-"), 0)
}

fn clone_net(net: &Option<String>) -> (r: Option<String>)
    ensures
        opt_text(r) == opt_text(*net),
{
    match net {
        Some(n) => Some(n.clone()),
        None => None,
    }
}

/// Adds what one pad needs.
fn plan_pad(nl: &Netlist, board: &BoardModel, reference: &String, pad: &BoardPad, out: &mut Plan)
    requires
        old(out)@.nets_to_add == new_nets(board@, old(out)@.pad_net_changes),
    ensures
        final(out)@.pad_net_changes == (match pad_change(nl@, reference@, pad@) {
            Some(c) => old(out)@.pad_net_changes.push(c),
            None => old(out)@.pad_net_changes,
        }),
        final(out)@.unmatched_board_pads == (if is_unmatched(nl@, reference@, pad@) {
            old(out)@.unmatched_board_pads.push((reference@, pad@.number))
        } else {
            old(out)@.unmatched_board_pads
        }),
        final(out)@.nets_to_add == new_nets(board@, final(out)@.pad_net_changes),
        final(out).value_changes == old(out).value_changes,
        final(out).missing_on_board == old(out).missing_on_board,
        final(out).extra_on_board == old(out).extra_on_board,
        final(out).footprint_mismatches == old(out).footprint_mismatches,
{
    let key: (String, String) = (reference.clone(), pad.number.clone());
    match nl.pad_nets.get(&key) {
        Some(net) => {
            if !starts_unconnected(net) && !same_net(&pad.net, net) {
                let change = PadNetChange {
                    reference: reference.clone(),
                    pad: pad.number.clone(),
                    old: clone_net(&pad.net),
                    new: net.clone(),
                };
                let ghost before = out@.pad_net_changes;
                let ghost after = before.push(change@);
                assert(changes_view(out.pad_net_changes@.push(change)) =~= after);
                out.pad_net_changes.push(change);
                assert(after.drop_last() =~= before);
                if board.uses_codes && !has_text(&board.net_table, net.as_str()) && !has_text(
                    &out.nets_to_add,
                    net.as_str(),
                ) {
                    let n = net.clone();
                    assert(texts(out.nets_to_add@.push(n)) =~= texts(out.nets_to_add@).push(n@));
                    out.nets_to_add.push(n);
                }
            }
        },
        None => {
            let named = match &pad.net {
                Some(n) => !n.as_str().is_empty(),
                None => false,
            };
            if named {
                let t = (reference.clone(), pad.number.clone());
                assert(pairs_view(out.unmatched_board_pads@.push(t)) =~= pairs_view(
                    out.unmatched_board_pads@,
                ).push((reference@, pad@.number)));
                out.unmatched_board_pads.push(t);
            }
        },
    }
}

/// Adds what the pads of one footprint need.
fn plan_pads(nl: &Netlist, board: &BoardModel, fp: &BoardFp, out: &mut Plan)
    requires
        old(out)@.nets_to_add == new_nets(board@, old(out)@.pad_net_changes),
    ensures
        final(out)@.pad_net_changes == old(out)@.pad_net_changes + pads_changes(
            nl@,
            fp@.reference,
            fp@.pads,
        ),
        final(out)@.unmatched_board_pads == old(out)@.unmatched_board_pads + pads_unmatched(
            nl@,
            fp@.reference,
            fp@.pads,
        ),
        final(out)@.nets_to_add == new_nets(board@, final(out)@.pad_net_changes),
        final(out).value_changes == old(out).value_changes,
        final(out).missing_on_board == old(out).missing_on_board,
        final(out).extra_on_board == old(out).extra_on_board,
        final(out).footprint_mismatches == old(out).footprint_mismatches,
{
    let ghost all = fp@.pads;
    let ghost changes = out@.pad_net_changes;
    let ghost unmatched = out@.unmatched_board_pads;
    let mut i: usize = 0;
    assert(changes + pads_changes(nl@, fp@.reference, all.take(0)) =~= changes);
    assert(unmatched + pads_unmatched(nl@, fp@.reference, all.take(0)) =~= unmatched);
    while i < fp.pads.len()
        invariant
            i <= fp.pads@.len(),
            all == fp@.pads,
            all == pads_view(fp.pads@),
            changes == old(out)@.pad_net_changes,
            unmatched == old(out)@.unmatched_board_pads,
            out@.pad_net_changes == changes + pads_changes(nl@, fp@.reference, all.take(i as int)),
            out@.unmatched_board_pads == unmatched + pads_unmatched(
                nl@,
                fp@.reference,
                all.take(i as int),
            ),
            out@.nets_to_add == new_nets(board@, out@.pad_net_changes),
            out.value_changes == old(out).value_changes,
            out.missing_on_board == old(out).missing_on_board,
            out.extra_on_board == old(out).extra_on_board,
            out.footprint_mismatches == old(out).footprint_mismatches,
        decreases fp.pads@.len() - i,
    {
        let pad = &fp.pads[i];
        proof {
            assert(all.take(i + 1).drop_last() =~= all.take(i as int));
            assert(all.take(i + 1).last() == pad@);
        }
        plan_pad(nl, board, &fp.reference, pad, out);
        assert(out@.pad_net_changes =~= changes + pads_changes(
            nl@,
            fp@.reference,
            all.take(i + 1),
        ));
        assert(out@.unmatched_board_pads =~= unmatched + pads_unmatched(
            nl@,
            fp@.reference,
            all.take(i + 1),
        ));
        i = i + 1;
    }
    assert(all.take(fp.pads@.len() as int) =~= all);
}

/// Adds what one footprint needs.
fn plan_footprint(nl: &Netlist, board: &BoardModel, fp: &BoardFp, out: &mut Plan, Ghost(fps): Ghost<Seq<Fp>>)
    requires
        fps.len() > 0,
        fps.last() == fp@,
        old(out)@.pad_net_changes == all_changes(nl@, fps.drop_last()),
        old(out)@.value_changes == all_values(nl@, fps.drop_last()),
        old(out)@.nets_to_add == new_nets(board@, old(out)@.pad_net_changes),
        old(out)@.extra_on_board == all_extra(nl@, fps.drop_last()),
        old(out)@.footprint_mismatches == all_mismatches(nl@, fps.drop_last()),
        old(out)@.unmatched_board_pads == all_unmatched(nl@, fps.drop_last()),
    ensures
        final(out)@.pad_net_changes == all_changes(nl@, fps),
        final(out)@.value_changes == all_values(nl@, fps),
        final(out)@.nets_to_add == new_nets(board@, final(out)@.pad_net_changes),
        final(out)@.extra_on_board == all_extra(nl@, fps),
        final(out)@.footprint_mismatches == all_mismatches(nl@, fps),
        final(out)@.unmatched_board_pads == all_unmatched(nl@, fps),
        final(out).missing_on_board == old(out).missing_on_board,
{
    match find_comp(&nl.comps, &fp.reference) {
        Some(comp) => {
            if !comp.value.as_str().is_empty() && !(comp.value == fp.value) {
                let c = ValueChange {
                    reference: fp.reference.clone(),
                    old: fp.value.clone(),
                    new: comp.value.clone(),
                };
                assert(values_view(out.value_changes@.push(c)) =~= values_view(
                    out.value_changes@,
                ).push(c@));
                out.value_changes.push(c);
            }
            if !comp.footprint.as_str().is_empty() && !(comp.footprint == fp.footprint) {
                let t = (fp.reference.clone(), fp.footprint.clone(), comp.footprint.clone());
                assert(triples_view(out.footprint_mismatches@.push(t)) =~= triples_view(
                    out.footprint_mismatches@,
                ).push((fp@.reference, fp@.footprint, comp@.footprint)));
                out.footprint_mismatches.push(t);
            }
            plan_pads(nl, board, fp, out);
        },
        None => {
            let t = fp.reference.clone();
            assert(texts(out.extra_on_board@.push(t)) =~= texts(out.extra_on_board@).push(t@));
            out.extra_on_board.push(t);
        },
    }
}

/// Diff a parsed schematic netlist against a board model.
pub fn plan(nl: &Netlist, board: &BoardModel) -> (r: Plan)
    ensures
        r@ == diff(nl@, board@),
{
    let mut out = Plan::default();
    let ghost all = board@.fps;
    let mut i: usize = 0;
    while i < board.fps.len()
        invariant
            i <= board.fps@.len(),
            all == board@.fps,
            all == fps_view(board.fps@),
            out@.pad_net_changes == all_changes(nl@, all.take(i as int)),
            out@.value_changes == all_values(nl@, all.take(i as int)),
            out@.nets_to_add == new_nets(board@, out@.pad_net_changes),
            out@.extra_on_board == all_extra(nl@, all.take(i as int)),
            out@.footprint_mismatches == all_mismatches(nl@, all.take(i as int)),
            out@.unmatched_board_pads == all_unmatched(nl@, all.take(i as int)),
        decreases board.fps@.len() - i,
    {
        let fp = &board.fps[i];
        proof {
            assert(all.take(i + 1).drop_last() =~= all.take(i as int));
            assert(all.take(i + 1).last() == fp@);
        }
        plan_footprint(nl, board, fp, &mut out, Ghost(all.take(i + 1)));
        i = i + 1;
    }
    assert(all.take(board.fps@.len() as int) =~= all);
    out.missing_on_board = missing_comps(&nl.comps, &board.fps);
    out
}

// ─── Carrying the plan out ────────────────────────────────────────────────────

/// The net that `changes` put the pad on, where they speak of it.
pub open spec fn changed_net(changes: Seq<PadChange>, reference: Seq<char>, pad: Seq<char>) -> Option<
    Seq<char>,
>
    decreases changes.len(),
{
    if changes.len() == 0 {
        None
    } else if changes.last().reference == reference && changes.last().pad == pad {
        Some(changes.last().new)
    } else {
        changed_net(changes.drop_last(), reference, pad)
    }
}

/// The value that `changes` give the component, where they speak of it.
pub open spec fn changed_value(changes: Seq<NewValue>, reference: Seq<char>) -> Option<Seq<char>>
    decreases changes.len(),
{
    if changes.len() == 0 {
        None
    } else if changes.last().reference == reference {
        Some(changes.last().new)
    } else {
        changed_value(changes.drop_last(), reference)
    }
}

/// The pad after the changes of a plan.
pub open spec fn pad_after(d: Diff, reference: Seq<char>, pad: Pad) -> Pad {
    match changed_net(d.pad_net_changes, reference, pad.number) {
        Some(net) => Pad { number: pad.number, net: Some(net) },
        None => pad,
    }
}

/// The footprint after the changes of a plan.
pub open spec fn fp_after(d: Diff, fp: Fp) -> Fp {
    Fp {
        reference: fp.reference,
        value: match changed_value(d.value_changes, fp.reference) {
            Some(v) => v,
            None => fp.value,
        },
        footprint: fp.footprint,
        pads: Seq::new(fp.pads.len(), |i: int| pad_after(d, fp.reference, fp.pads[i])),
    }
}

/// The board after the changes of a plan: every pad named by a change is on its
/// new net, every component named by a value change has its new value, and the
/// net table holds the nets to add.
pub open spec fn board_after(d: Diff, board: Board) -> Board {
    Board {
        fps: Seq::new(board.fps.len(), |i: int| fp_after(d, board.fps[i])),
        uses_codes: board.uses_codes,
        net_table: board.net_table.union(d.nets_to_add.to_set()),
    }
}

// ─── Laws ─────────────────────────────────────────────────────────────────────

/// Does the change put a pad of the schematic on the net it has there, and is
/// that net neither the pad's old one nor an `unconnected-*` one?
pub open spec fn is_sound(nl: Connectivity, c: PadChange) -> bool {
    &&& desired_net(nl, c.reference, c.pad) == Some(c.new)
    &&& !is_unconnected(c.new)
    &&& c.old != Some(c.new)
    &&& comp_for(nl.comps, c.reference) is Some
}

proof fn lemma_pads_changes_sound(nl: Connectivity, reference: Seq<char>, pads: Seq<Pad>)
    requires
        comp_for(nl.comps, reference) is Some,
    ensures
        forall|i: int|
            0 <= i < pads_changes(nl, reference, pads).len() ==> is_sound(
                nl,
                #[trigger] pads_changes(nl, reference, pads)[i],
            ),
    decreases pads.len(),
{
    if pads.len() > 0 {
        lemma_pads_changes_sound(nl, reference, pads.drop_last());
        let before = pads_changes(nl, reference, pads.drop_last());
        let all = pads_changes(nl, reference, pads);
        assert forall|i: int| 0 <= i < all.len() implies is_sound(nl, #[trigger] all[i]) by {
            if i < before.len() {
                assert(all[i] == before[i]);
            }
        }
    }
}

proof fn lemma_changes_sound(nl: Connectivity, fps: Seq<Fp>)
    ensures
        forall|i: int|
            0 <= i < all_changes(nl, fps).len() ==> is_sound(nl, #[trigger] all_changes(nl, fps)[i]),
    decreases fps.len(),
{
    if fps.len() > 0 {
        lemma_changes_sound(nl, fps.drop_last());
        let fp = fps.last();
        if comp_for(nl.comps, fp.reference) is Some {
            lemma_pads_changes_sound(nl, fp.reference, fp.pads);
        }
        let before = all_changes(nl, fps.drop_last());
        let own = pads_changes(nl, fp.reference, fp.pads);
        let all = all_changes(nl, fps);
        assert forall|i: int| 0 <= i < all.len() implies is_sound(nl, #[trigger] all[i]) by {
            if i < before.len() {
                assert(all[i] == before[i]);
            } else {
                assert(all[i] == own[i - before.len()]);
            }
        }
    }
}

/// A plan changes only nets that the schematic gives, only where the board differs,
/// and never puts a pad on an `unconnected-*` net.
pub proof fn law_never_syncs_to_unconnected(nl: Connectivity, board: Board, i: int)
    requires
        0 <= i < diff(nl, board).pad_net_changes.len(),
    ensures
        is_sound(nl, diff(nl, board).pad_net_changes[i]),
{
    lemma_changes_sound(nl, board.fps);
}

proof fn lemma_pads_changes_complete(
    nl: Connectivity,
    reference: Seq<char>,
    pads: Seq<Pad>,
    k: int,
)
    requires
        0 <= k < pads.len(),
        pad_change(nl, reference, pads[k]) is Some,
    ensures
        pads_changes(nl, reference, pads).contains(pad_change(nl, reference, pads[k])->0),
    decreases pads.len(),
{
    let c = pad_change(nl, reference, pads[k])->0;
    let all = pads_changes(nl, reference, pads);
    let before = pads_changes(nl, reference, pads.drop_last());
    if k == pads.len() - 1 {
        assert(all.last() == c);
    } else {
        lemma_pads_changes_complete(nl, reference, pads.drop_last(), k);
        let j = choose|j: int| 0 <= j < before.len() && before[j] == c;
        assert(all[j] == c);
    }
}

proof fn lemma_changes_complete(nl: Connectivity, fps: Seq<Fp>, i: int, k: int)
    requires
        0 <= i < fps.len(),
        0 <= k < fps[i].pads.len(),
        comp_for(nl.comps, fps[i].reference) is Some,
        pad_change(nl, fps[i].reference, fps[i].pads[k]) is Some,
    ensures
        all_changes(nl, fps).contains(pad_change(nl, fps[i].reference, fps[i].pads[k])->0),
    decreases fps.len(),
{
    let c = pad_change(nl, fps[i].reference, fps[i].pads[k])->0;
    let all = all_changes(nl, fps);
    let before = all_changes(nl, fps.drop_last());
    if i == fps.len() - 1 {
        let own = pads_changes(nl, fps[i].reference, fps[i].pads);
        lemma_pads_changes_complete(nl, fps[i].reference, fps[i].pads, k);
        let j = choose|j: int| 0 <= j < own.len() && own[j] == c;
        assert(all[before.len() + j] == c);
    } else {
        lemma_changes_complete(nl, fps.drop_last(), i, k);
        let j = choose|j: int| 0 <= j < before.len() && before[j] == c;
        assert(all[j] == c);
    }
}

/// Every pad of a component that the schematic puts on another net, other than
/// an `unconnected-*` one, is among the changes of the plan.
pub proof fn law_every_stale_pad_is_planned(nl: Connectivity, board: Board, i: int, k: int)
    requires
        0 <= i < board.fps.len(),
        0 <= k < board.fps[i].pads.len(),
        comp_for(nl.comps, board.fps[i].reference) is Some,
        desired_net(nl, board.fps[i].reference, board.fps[i].pads[k].number) matches Some(net)
            && !is_unconnected(net) && board.fps[i].pads[k].net != Some(net),
    ensures
        diff(nl, board).pad_net_changes.contains(
            PadChange {
                reference: board.fps[i].reference,
                pad: board.fps[i].pads[k].number,
                old: board.fps[i].pads[k].net,
                new: desired_net(nl, board.fps[i].reference, board.fps[i].pads[k].number)->0,
            },
        ),
{
    lemma_changes_complete(nl, board.fps, i, k);
}

proof fn lemma_changed_net(changes: Seq<PadChange>, reference: Seq<char>, pad: Seq<char>)
    ensures
        match changed_net(changes, reference, pad) {
            Some(net) => exists|j: int|
                0 <= j < changes.len() && (#[trigger] changes[j]).reference == reference
                    && changes[j].pad == pad && changes[j].new == net,
            None => forall|j: int|
                0 <= j < changes.len() ==> (#[trigger] changes[j]).reference != reference
                    || changes[j].pad != pad,
        },
    decreases changes.len(),
{
    if changes.len() > 0 {
        let before = changes.drop_last();
        lemma_changed_net(before, reference, pad);
        if changes.last().reference == reference && changes.last().pad == pad {
            assert(changes[changes.len() - 1].new == changes.last().new);
        } else {
            match changed_net(before, reference, pad) {
                Some(net) => {
                    let j = choose|j: int|
                        0 <= j < before.len() && (#[trigger] before[j]).reference == reference
                            && before[j].pad == pad && before[j].new == net;
                    assert(changes[j] == before[j]);
                },
                None => {
                    assert forall|j: int| 0 <= j < changes.len() implies (
                    #[trigger] changes[j]).reference != reference || changes[j].pad != pad by {
                        if j < before.len() {
                            assert(changes[j] == before[j]);
                        }
                    }
                },
            }
        }
    }
}

proof fn lemma_pad_in_sync(nl: Connectivity, board: Board, i: int, k: int)
    requires
        0 <= i < board.fps.len(),
        0 <= k < board.fps[i].pads.len(),
        comp_for(nl.comps, board.fps[i].reference) is Some,
    ensures
        ({
            let fp = board.fps[i];
            let after = pad_after(diff(nl, board), fp.reference, fp.pads[k]);
            &&& pad_change(nl, fp.reference, after) is None
            &&& is_unmatched(nl, fp.reference, after) == is_unmatched(
                nl,
                fp.reference,
                fp.pads[k],
            )
        }),
{
    let fp = board.fps[i];
    let pad = fp.pads[k];
    let changes = all_changes(nl, board.fps);
    lemma_changes_sound(nl, board.fps);
    lemma_changed_net(changes, fp.reference, pad.number);
    match changed_net(changes, fp.reference, pad.number) {
        Some(net) => {
            let j = choose|j: int|
                0 <= j < changes.len() && (#[trigger] changes[j]).reference == fp.reference
                    && changes[j].pad == pad.number && changes[j].new == net;
            assert(is_sound(nl, changes[j]));
        },
        None => {
            if pad_change(nl, fp.reference, pad) is Some {
                lemma_changes_complete(nl, board.fps, i, k);
                let c = pad_change(nl, fp.reference, pad)->0;
                let j = choose|j: int| 0 <= j < changes.len() && changes[j] == c;
                assert(changes[j].reference == fp.reference && changes[j].pad == pad.number);
                assert(false);
            }
        },
    }
}

proof fn lemma_no_pads_changes(nl: Connectivity, reference: Seq<char>, pads: Seq<Pad>)
    requires
        forall|k: int|
            0 <= k < pads.len() ==> pad_change(nl, reference, #[trigger] pads[k]) is None,
    ensures
        pads_changes(nl, reference, pads) == Seq::<PadChange>::empty(),
    decreases pads.len(),
{
    if pads.len() > 0 {
        assert(pad_change(nl, reference, pads[pads.len() - 1]) is None);
        assert forall|k: int| 0 <= k < pads.drop_last().len() implies pad_change(
            nl,
            reference,
            #[trigger] pads.drop_last()[k],
        ) is None by {
            assert(pads.drop_last()[k] == pads[k]);
        }
        lemma_no_pads_changes(nl, reference, pads.drop_last());
    }
}

proof fn lemma_no_changes(nl: Connectivity, fps: Seq<Fp>)
    requires
        forall|i: int, k: int|
            0 <= i < fps.len() && 0 <= k < fps[i].pads.len() && comp_for(
                nl.comps,
                fps[i].reference,
            ) is Some ==> pad_change(nl, fps[i].reference, #[trigger] fps[i].pads[k]) is None,
    ensures
        all_changes(nl, fps) == Seq::<PadChange>::empty(),
    decreases fps.len(),
{
    if fps.len() > 0 {
        let fp = fps.last();
        let before = fps.drop_last();
        assert forall|i: int, k: int|
            0 <= i < before.len() && 0 <= k < before[i].pads.len() && comp_for(
                nl.comps,
                before[i].reference,
            ) is Some implies pad_change(
            nl,
            before[i].reference,
            #[trigger] before[i].pads[k],
        ) is None by {
            assert(before[i] == fps[i]);
            assert(fps[i].pads[k] == before[i].pads[k]);
        }
        lemma_no_changes(nl, before);
        if comp_for(nl.comps, fp.reference) is Some {
            assert forall|k: int| 0 <= k < fp.pads.len() implies pad_change(
                nl,
                fp.reference,
                #[trigger] fp.pads[k],
            ) is None by {
                assert(fps[fps.len() - 1].pads[k] == fp.pads[k]);
            }
            lemma_no_pads_changes(nl, fp.reference, fp.pads);
        }
        assert(all_changes(nl, fps) =~= Seq::<PadChange>::empty());
    }
}

proof fn lemma_changed_value(nl: Connectivity, fps: Seq<Fp>, reference: Seq<char>)
    ensures
        match changed_value(all_values(nl, fps), reference) {
            Some(v) => comp_for(nl.comps, reference) matches Some(c) && c.value == v && v.len() > 0,
            None => forall|i: int|
                0 <= i < fps.len() && (#[trigger] fps[i]).reference == reference ==> value_change(
                    nl,
                    fps[i],
                ) is None,
        },
    decreases fps.len(),
{
    if fps.len() > 0 {
        let before = fps.drop_last();
        lemma_changed_value(nl, before, reference);
        let all = all_values(nl, fps);
        if value_change(nl, fps.last()) is Some {
            assert(all.drop_last() =~= all_values(nl, before));
        }
        if changed_value(all, reference) is None {
            assert forall|i: int|
                0 <= i < fps.len() && (#[trigger] fps[i]).reference
                    == reference implies value_change(nl, fps[i]) is None by {
                if i < before.len() {
                    assert(before[i] == fps[i]);
                }
            }
        }
    }
}

proof fn lemma_no_values(nl: Connectivity, fps: Seq<Fp>)
    requires
        forall|i: int| 0 <= i < fps.len() ==> value_change(nl, #[trigger] fps[i]) is None,
    ensures
        all_values(nl, fps) == Seq::<NewValue>::empty(),
    decreases fps.len(),
{
    if fps.len() > 0 {
        assert(value_change(nl, fps[fps.len() - 1]) is None);
        assert forall|i: int| 0 <= i < fps.drop_last().len() implies value_change(
            nl,
            #[trigger] fps.drop_last()[i],
        ) is None by {
            assert(fps.drop_last()[i] == fps[i]);
        }
        lemma_no_values(nl, fps.drop_last());
    }
}

proof fn lemma_same_unmatched(
    nl: Connectivity,
    reference: Seq<char>,
    pads: Seq<Pad>,
    after: Seq<Pad>,
)
    requires
        after.len() == pads.len(),
        forall|k: int|
            0 <= k < pads.len() ==> (#[trigger] after[k]).number == pads[k].number && is_unmatched(
                nl,
                reference,
                after[k],
            ) == is_unmatched(nl, reference, pads[k]),
    ensures
        pads_unmatched(nl, reference, after) == pads_unmatched(nl, reference, pads),
    decreases pads.len(),
{
    if pads.len() > 0 {
        let last = pads.len() - 1;
        assert(after[last].number == pads[last].number);
        assert forall|k: int| 0 <= k < pads.drop_last().len() implies (
        #[trigger] after.drop_last()[k]).number == pads.drop_last()[k].number && is_unmatched(
            nl,
            reference,
            after.drop_last()[k],
        ) == is_unmatched(nl, reference, pads.drop_last()[k]) by {
            assert(after.drop_last()[k] == after[k]);
        }
        lemma_same_unmatched(nl, reference, pads.drop_last(), after.drop_last());
    }
}

/// Do the two lists of footprints differ, if at all, only in values and pad nets
/// that no report is about?
spec fn same_reports(nl: Connectivity, fps: Seq<Fp>, after: Seq<Fp>) -> bool {
    &&& after.len() == fps.len()
    &&& forall|i: int|
        0 <= i < fps.len() ==> {
            &&& (#[trigger] after[i]).reference == fps[i].reference
            &&& after[i].footprint == fps[i].footprint
            &&& comp_for(nl.comps, fps[i].reference) is Some ==> pads_unmatched(
                nl,
                fps[i].reference,
                after[i].pads,
            ) == pads_unmatched(nl, fps[i].reference, fps[i].pads)
        }
}

proof fn lemma_same_reports(nl: Connectivity, fps: Seq<Fp>, after: Seq<Fp>)
    requires
        same_reports(nl, fps, after),
    ensures
        all_unmatched(nl, after) == all_unmatched(nl, fps),
        all_extra(nl, after) == all_extra(nl, fps),
        all_mismatches(nl, after) == all_mismatches(nl, fps),
    decreases fps.len(),
{
    if fps.len() > 0 {
        let last = fps.len() - 1;
        assert(after[last].reference == fps[last].reference);
        assert forall|i: int| 0 <= i < last implies #[trigger] after.drop_last()[i] == after[i]
            && fps.drop_last()[i] == fps[i] by {}
        assert(same_reports(nl, fps.drop_last(), after.drop_last()));
        lemma_same_reports(nl, fps.drop_last(), after.drop_last());
    }
}

proof fn lemma_same_missing(comps: Seq<Comp>, fps: Seq<Fp>, after: Seq<Fp>)
    requires
        after.len() == fps.len(),
        forall|i: int| 0 <= i < fps.len() ==> (#[trigger] after[i]).reference == fps[i].reference,
    ensures
        all_missing(comps, after) == all_missing(comps, fps),
    decreases comps.len(),
{
    if comps.len() > 0 {
        lemma_same_missing(comps.drop_last(), fps, after);
        let r = comps.last().reference;
        if on_board(after, r) {
            let i = choose|i: int| 0 <= i < after.len() && (#[trigger] after[i]).reference == r;
            assert(fps[i].reference == r);
        }
        if on_board(fps, r) {
            let i = choose|i: int| 0 <= i < fps.len() && (#[trigger] fps[i]).reference == r;
            assert(after[i].reference == r);
        }
    }
}

/// Planning is idempotent: once a plan is carried out, the next plan has nothing
/// to apply and no nets to add, and reports what the first one reported.
pub proof fn law_second_pass_has_nothing_to_apply(nl: Connectivity, board: Board)
    ensures
        diff(nl, board_after(diff(nl, board), board)) == (Diff {
            pad_net_changes: Seq::empty(),
            value_changes: Seq::empty(),
            nets_to_add: Seq::empty(),
            ..diff(nl, board)
        }),
        diff(nl, board_after(diff(nl, board), board)).nothing_to_apply(),
{
    let d = diff(nl, board);
    let after = board_after(d, board);
    assert forall|i: int, k: int|
        0 <= i < after.fps.len() && 0 <= k < after.fps[i].pads.len() && comp_for(
            nl.comps,
            after.fps[i].reference,
        ) is Some implies pad_change(
        nl,
        after.fps[i].reference,
        #[trigger] after.fps[i].pads[k],
    ) is None by {
        lemma_pad_in_sync(nl, board, i, k);
    }
    lemma_no_changes(nl, after.fps);
    assert forall|i: int| 0 <= i < after.fps.len() implies value_change(
        nl,
        #[trigger] after.fps[i],
    ) is None by {
        lemma_changed_value(nl, board.fps, board.fps[i].reference);
        assert(after.fps[i].reference == board.fps[i].reference);
    }
    lemma_no_values(nl, after.fps);
    assert forall|i: int| 0 <= i < after.fps.len() && comp_for(
        nl.comps,
        board.fps[i].reference,
    ) is Some implies pads_unmatched(
        nl,
        board.fps[i].reference,
        (#[trigger] after.fps[i]).pads,
    ) == pads_unmatched(nl, board.fps[i].reference, board.fps[i].pads) by {
        let pads = board.fps[i].pads;
        assert forall|k: int| 0 <= k < pads.len() implies (#[trigger] after.fps[i].pads[k]).number
            == pads[k].number && is_unmatched(
            nl,
            board.fps[i].reference,
            after.fps[i].pads[k],
        ) == is_unmatched(nl, board.fps[i].reference, pads[k]) by {
            lemma_pad_in_sync(nl, board, i, k);
        }
        lemma_same_unmatched(nl, board.fps[i].reference, pads, after.fps[i].pads);
    }
    assert(same_reports(nl, board.fps, after.fps));
    lemma_same_reports(nl, board.fps, after.fps);
    lemma_same_missing(nl.comps, board.fps, after.fps);
}

proof fn lemma_new_nets(board: Board, changes: Seq<PadChange>)
    ensures
        new_nets(board, changes).no_duplicates(),
        forall|net: Seq<char>| #[trigger] new_nets(board, changes).contains(net) <==> {
            &&& board.uses_codes
            &&& !board.net_table.contains(net)
            &&& exists|i: int| 0 <= i < changes.len() && (#[trigger] changes[i]).new == net
        },
    decreases changes.len(),
{
    let all = new_nets(board, changes);
    if changes.len() > 0 && board.uses_codes {
        let before = changes.drop_last();
        lemma_new_nets(board, before);
        let old = new_nets(board, before);
        let last = changes.last().new;
        assert forall|net: Seq<char>| #[trigger] all.contains(net) <==> {
            &&& board.uses_codes
            &&& !board.net_table.contains(net)
            &&& exists|i: int| 0 <= i < changes.len() && (#[trigger] changes[i]).new == net
        } by {
            if all.contains(net) {
                let j = choose|j: int| 0 <= j < all.len() && all[j] == net;
                if j < old.len() {
                    assert(old[j] == net);
                    assert(old.contains(net));
                    let i = choose|i: int|
                        0 <= i < before.len() && (#[trigger] before[i]).new == net;
                    assert(changes[i].new == net);
                } else {
                    assert(changes[changes.len() - 1].new == net);
                }
            }
            if !board.net_table.contains(net) && (exists|i: int|
                0 <= i < changes.len() && (#[trigger] changes[i]).new == net) {
                let i = choose|i: int| 0 <= i < changes.len() && (#[trigger] changes[i]).new == net;
                if i < before.len() {
                    assert(before[i].new == net);
                    assert(old.contains(net));
                    let j = choose|j: int| 0 <= j < old.len() && old[j] == net;
                    assert(all[j] == net);
                } else if old.contains(net) {
                    let j = choose|j: int| 0 <= j < old.len() && old[j] == net;
                    assert(all[j] == net);
                } else {
                    assert(all[all.len() - 1] == net);
                }
            }
        }
        if !board.net_table.contains(last) && !old.contains(last) {
            assert forall|i: int, j: int| 0 <= i < all.len() && 0 <= j < all.len() && i
                != j implies all[i] != all[j] by {
                if i < old.len() && j == old.len() {
                    assert(old.contains(old[i]));
                } else if j < old.len() && i == old.len() {
                    assert(old.contains(old[j]));
                }
            }
        }
    } else {
        assert forall|net: Seq<char>| !(#[trigger] all.contains(net)) by {}
    }
}

/// The nets to add are the nets that a change leads to and a coded board's table
/// lacks, each once; a name-only board needs none.
pub proof fn law_nets_to_add(nl: Connectivity, board: Board, net: Seq<char>)
    ensures
        diff(nl, board).nets_to_add.no_duplicates(),
        !board.uses_codes ==> diff(nl, board).nets_to_add.len() == 0,
        diff(nl, board).nets_to_add.contains(net) <==> {
            &&& board.uses_codes
            &&& !board.net_table.contains(net)
            &&& exists|i: int|
                0 <= i < diff(nl, board).pad_net_changes.len() && (#[trigger] diff(
                    nl,
                    board,
                ).pad_net_changes[i]).new == net
        },
{
    lemma_new_nets(board, all_changes(nl, board.fps));
}

proof fn lemma_comp_for(comps: Seq<Comp>, reference: Seq<char>)
    ensures
        comp_for(comps, reference) is Some <==> exists|i: int|
            0 <= i < comps.len() && (#[trigger] comps[i]).reference == reference,
    decreases comps.len(),
{
    if comps.len() > 0 {
        lemma_comp_for(comps.drop_last(), reference);
        if comps.last().reference == reference {
            assert(comps[comps.len() - 1].reference == reference);
        } else {
            if comp_for(comps, reference) is Some {
                let i = choose|i: int|
                    0 <= i < comps.drop_last().len() && (
                    #[trigger] comps.drop_last()[i]).reference == reference;
                assert(comps[i].reference == reference);
            }
            if exists|i: int| 0 <= i < comps.len() && (#[trigger] comps[i]).reference == reference {
                let i = choose|i: int|
                    0 <= i < comps.len() && (#[trigger] comps[i]).reference == reference;
                assert(comps.drop_last()[i].reference == reference);
            }
        }
    }
}

proof fn lemma_extra(nl: Connectivity, fps: Seq<Fp>, reference: Seq<char>)
    ensures
        all_extra(nl, fps).contains(reference) <==> on_board(fps, reference) && comp_for(
            nl.comps,
            reference,
        ) is None,
    decreases fps.len(),
{
    let all = all_extra(nl, fps);
    if fps.len() > 0 {
        let before = fps.drop_last();
        let old = all_extra(nl, before);
        lemma_extra(nl, before, reference);
        if all.contains(reference) {
            let j = choose|j: int| 0 <= j < all.len() && all[j] == reference;
            if j < old.len() {
                assert(old[j] == reference);
                assert(old.contains(reference));
                let i = choose|i: int|
                    0 <= i < before.len() && (#[trigger] before[i]).reference == reference;
                assert(fps[i].reference == reference);
            } else {
                assert(fps[fps.len() - 1].reference == reference);
            }
        }
        if on_board(fps, reference) && comp_for(nl.comps, reference) is None {
            let i = choose|i: int|
                0 <= i < fps.len() && (#[trigger] fps[i]).reference == reference;
            if i < before.len() {
                assert(before[i].reference == reference);
                let j = choose|j: int| 0 <= j < old.len() && old[j] == reference;
                assert(all[j] == reference);
            } else {
                assert(all[all.len() - 1] == reference);
            }
        }
    }
}

proof fn lemma_missing(comps: Seq<Comp>, fps: Seq<Fp>, reference: Seq<char>)
    ensures
        all_missing(comps, fps).contains(reference) <==> comp_for(comps, reference) is Some
            && !on_board(fps, reference),
    decreases comps.len(),
{
    let all = all_missing(comps, fps);
    if comps.len() > 0 {
        let old = all_missing(comps.drop_last(), fps);
        lemma_missing(comps.drop_last(), fps, reference);
        if all.contains(reference) {
            let j = choose|j: int| 0 <= j < all.len() && all[j] == reference;
            if j < old.len() {
                assert(old[j] == reference);
                assert(old.contains(reference));
            }
        }
        if comp_for(comps, reference) is Some && !on_board(fps, reference) {
            if comps.last().reference == reference {
                assert(all[all.len() - 1] == reference);
            } else {
                let j = choose|j: int| 0 <= j < old.len() && old[j] == reference;
                assert(all[j] == reference);
            }
        }
    }
}

/// A reference is reported as missing when the schematic has it and the board does
/// not, as extra when the board has it and the schematic does not, and is thus
/// never both.
pub proof fn law_missing_and_extra(nl: Connectivity, board: Board, reference: Seq<char>)
    ensures
        diff(nl, board).missing_on_board.contains(reference) <==> (exists|i: int|
            0 <= i < nl.comps.len() && (#[trigger] nl.comps[i]).reference == reference)
            && !on_board(board.fps, reference),
        diff(nl, board).extra_on_board.contains(reference) <==> on_board(board.fps, reference)
            && !(exists|i: int|
            0 <= i < nl.comps.len() && (#[trigger] nl.comps[i]).reference == reference),
{
    lemma_comp_for(nl.comps, reference);
    lemma_missing(nl.comps, board.fps, reference);
    lemma_extra(nl, board.fps, reference);
}

/// Carrying a plan out places, removes and refootprints nothing: the components stay, with
/// their references, footprints and pads.
pub proof fn law_components_stay(d: Diff, board: Board, i: int)
    requires
        0 <= i < board.fps.len(),
    ensures
        board_after(d, board).fps.len() == board.fps.len(),
        board_after(d, board).fps[i].reference == board.fps[i].reference,
        board_after(d, board).fps[i].footprint == board.fps[i].footprint,
        board_after(d, board).fps[i].pads.len() == board.fps[i].pads.len(),
        forall|k: int|
            0 <= k < board.fps[i].pads.len() ==> (#[trigger] board_after(
                d,
                board,
            ).fps[i].pads[k]).number == board.fps[i].pads[k].number,
{
}

// ─── What a plan holds ────────────────────────────────────────────────────────

/// Of several components of one reference the last one counts.
pub proof fn law_last_component_counts(comps: Seq<Comp>, reference: Seq<char>, k: int)
    requires
        k < comps.len(),
        forall|j: int| 0 <= j && k < j < comps.len() ==> (#[trigger] comps[j]).reference
            != reference,
        k >= 0 ==> comps[k].reference == reference,
    ensures
        k >= 0 ==> comp_for(comps, reference) == Some(comps[k]),
        k < 0 ==> comp_for(comps, reference) is None,
    decreases comps.len(),
{
    if comps.len() > 0 && k != comps.len() - 1 {
        let before = comps.drop_last();
        assert(comps[comps.len() - 1].reference != reference);
        assert forall|j: int| 0 <= j && k < j < before.len() implies (
        #[trigger] before[j]).reference != reference by {
            assert(before[j] == comps[j]);
        }
        law_last_component_counts(before, reference, k);
    }
}

/// The nets of pads that stay open are those whose name begins with `unconnected-`.
pub proof fn law_open_nets(rest: Seq<char>, name: Seq<char>)
    ensures
        is_unconnected("unconnected-"@ + rest),
        name.len() < 12 ==> !is_unconnected(name),
        is_unconnected(name) ==> name == "unconnected-"@ + name.skip(12),
{
    reveal_strlit("unconnected-");
    let full = "unconnected-"@ + rest;
    assert(full.subrange(0, 12) =~= "unconnected-"@);
    if is_unconnected(name) {
        assert(name =~= name.subrange(0, 12) + name.skip(12));
    }
}

/// A plan goes footprint by footprint: what it holds for a list of footprints is what it
/// holds for the first ones, followed by what it holds for the others.
pub proof fn law_plan_goes_footprint_by_footprint(nl: Connectivity, a: Seq<Fp>, b: Seq<Fp>)
    ensures
        ({
            let whole = diff(nl, Board { fps: a + b, uses_codes: false, net_table: Set::empty() });
            let one = diff(nl, Board { fps: a, uses_codes: false, net_table: Set::empty() });
            let two = diff(nl, Board { fps: b, uses_codes: false, net_table: Set::empty() });
            &&& whole.pad_net_changes == one.pad_net_changes + two.pad_net_changes
            &&& whole.value_changes == one.value_changes + two.value_changes
            &&& whole.extra_on_board == one.extra_on_board + two.extra_on_board
            &&& whole.footprint_mismatches == one.footprint_mismatches + two.footprint_mismatches
            &&& whole.unmatched_board_pads == one.unmatched_board_pads + two.unmatched_board_pads
        }),
    decreases b.len(),
{
    if b.len() == 0 {
        assert(a + b =~= a);
    } else {
        law_plan_goes_footprint_by_footprint(nl, a, b.drop_last());
        assert((a + b).drop_last() =~= a + b.drop_last());
        assert((a + b).last() == b.last());
    }
    assert(all_changes(nl, a + b) =~= all_changes(nl, a) + all_changes(nl, b));
    assert(all_values(nl, a + b) =~= all_values(nl, a) + all_values(nl, b));
    assert(all_extra(nl, a + b) =~= all_extra(nl, a) + all_extra(nl, b));
    assert(all_mismatches(nl, a + b) =~= all_mismatches(nl, a) + all_mismatches(nl, b));
    assert(all_unmatched(nl, a + b) =~= all_unmatched(nl, a) + all_unmatched(nl, b));
}

/// Only the nets to add depend on how a board keeps its nets.
pub proof fn law_net_format_matters_only_for_nets_to_add(nl: Connectivity, a: Board, b: Board)
    requires
        a.fps == b.fps,
    ensures
        diff(nl, a) == (Diff { nets_to_add: diff(nl, a).nets_to_add, ..diff(nl, b) }),
{
}

proof fn lemma_pads_changes(nl: Connectivity, reference: Seq<char>, pads: Seq<Pad>)
    ensures
        pads_changes(nl, reference, pads) == pads.filter(
            |p: Pad|
                nl.pad_nets.contains_key((reference, p.number)) && !is_unconnected(
                    nl.pad_nets[(reference, p.number)],
                ) && p.net != Some(nl.pad_nets[(reference, p.number)]),
        ).map_values(
            |p: Pad|
                PadChange {
                    reference,
                    pad: p.number,
                    old: p.net,
                    new: nl.pad_nets[(reference, p.number)],
                },
        ),
    decreases pads.len(),
{
    reveal(Seq::filter);
    let keep = |p: Pad|
        nl.pad_nets.contains_key((reference, p.number)) && !is_unconnected(
            nl.pad_nets[(reference, p.number)],
        ) && p.net != Some(nl.pad_nets[(reference, p.number)]);
    let change = |p: Pad|
        PadChange { reference, pad: p.number, old: p.net, new: nl.pad_nets[(reference, p.number)] };
    if pads.len() > 0 {
        lemma_pads_changes(nl, reference, pads.drop_last());
    }
    assert(pads_changes(nl, reference, pads) =~= pads.filter(keep).map_values(change));
}

proof fn lemma_pads_unmatched(nl: Connectivity, reference: Seq<char>, pads: Seq<Pad>)
    ensures
        pads_unmatched(nl, reference, pads) == pads.filter(
            |p: Pad|
                !nl.pad_nets.contains_key((reference, p.number)) && p.net is Some && p.net->0.len()
                    > 0,
        ).map_values(|p: Pad| (reference, p.number)),
    decreases pads.len(),
{
    reveal(Seq::filter);
    let keep = |p: Pad|
        !nl.pad_nets.contains_key((reference, p.number)) && p.net is Some && p.net->0.len() > 0;
    let pair = |p: Pad| (reference, p.number);
    if pads.len() > 0 {
        lemma_pads_unmatched(nl, reference, pads.drop_last());
    }
    assert(pads_unmatched(nl, reference, pads) =~= pads.filter(keep).map_values(pair));
}

/// What a plan holds for a footprint that the schematic has: every pad that the schematic
/// puts on another net, but for one that stays open, is to change from its own net to that
/// one; every pad with a net that the schematic does not know is reported; the value is to
/// change where the schematic gives another; and another footprint is reported.
pub proof fn law_plan_of_a_footprint(nl: Connectivity, board: Board, fp: Fp, c: Comp)
    requires
        board.fps == seq![fp],
        comp_for(nl.comps, fp.reference) == Some(c),
    ensures
        diff(nl, board).pad_net_changes == fp.pads.filter(
            |p: Pad|
                nl.pad_nets.contains_key((fp.reference, p.number)) && !is_unconnected(
                    nl.pad_nets[(fp.reference, p.number)],
                ) && p.net != Some(nl.pad_nets[(fp.reference, p.number)]),
        ).map_values(
            |p: Pad|
                PadChange {
                    reference: fp.reference,
                    pad: p.number,
                    old: p.net,
                    new: nl.pad_nets[(fp.reference, p.number)],
                },
        ),
        diff(nl, board).unmatched_board_pads == fp.pads.filter(
            |p: Pad|
                !nl.pad_nets.contains_key((fp.reference, p.number)) && p.net is Some
                    && p.net->0.len() > 0,
        ).map_values(|p: Pad| (fp.reference, p.number)),
        c.value.len() > 0 && c.value != fp.value ==> diff(nl, board).value_changes == seq![
            NewValue { reference: fp.reference, old: fp.value, new: c.value },
        ],
        c.value.len() == 0 || c.value == fp.value ==> diff(nl, board).value_changes == Seq::<
            NewValue,
        >::empty(),
        c.footprint.len() > 0 && c.footprint != fp.footprint ==> diff(
            nl,
            board,
        ).footprint_mismatches == seq![(fp.reference, fp.footprint, c.footprint)],
        c.footprint.len() == 0 || c.footprint == fp.footprint ==> diff(
            nl,
            board,
        ).footprint_mismatches == Seq::<(Seq<char>, Seq<char>, Seq<char>)>::empty(),
        diff(nl, board).extra_on_board == Seq::<Seq<char>>::empty(),
{
    lemma_pads_changes(nl, fp.reference, fp.pads);
    lemma_pads_unmatched(nl, fp.reference, fp.pads);
    lemma_one_footprint(nl, fp);
}

/// What the parts of a plan are for one footprint.
proof fn lemma_one_footprint(nl: Connectivity, fp: Fp)
    ensures
        ({
            let one = seq![fp];
            let known = comp_for(nl.comps, fp.reference) is Some;
            &&& known ==> all_changes(nl, one) == pads_changes(nl, fp.reference, fp.pads)
            &&& known ==> all_unmatched(nl, one) == pads_unmatched(nl, fp.reference, fp.pads)
            &&& !known ==> all_changes(nl, one) == Seq::<PadChange>::empty()
            &&& !known ==> all_unmatched(nl, one) == Seq::<(Seq<char>, Seq<char>)>::empty()
            &&& value_change(nl, fp) matches Some(v) ==> all_values(nl, one) == seq![v]
            &&& value_change(nl, fp) is None ==> all_values(nl, one) == Seq::<NewValue>::empty()
            &&& all_extra(nl, one) == (if known {
                Seq::<Seq<char>>::empty()
            } else {
                seq![fp.reference]
            })
            &&& all_mismatches(nl, one) == (match comp_for(nl.comps, fp.reference) {
                Some(c) => if c.footprint.len() > 0 && c.footprint != fp.footprint {
                    seq![(fp.reference, fp.footprint, c.footprint)]
                } else {
                    Seq::empty()
                },
                None => Seq::empty(),
            })
        }),
{
    let one = seq![fp];
    let none = one.drop_last();
    assert(none =~= Seq::<Fp>::empty());
    assert(all_changes(nl, none) =~= Seq::<PadChange>::empty());
    assert(all_values(nl, none) =~= Seq::<NewValue>::empty());
    assert(all_extra(nl, none) =~= Seq::<Seq<char>>::empty());
    assert(all_mismatches(nl, none) =~= Seq::<(Seq<char>, Seq<char>, Seq<char>)>::empty());
    assert(all_unmatched(nl, none) =~= Seq::<(Seq<char>, Seq<char>)>::empty());
    let changes = pads_changes(nl, fp.reference, fp.pads);
    assert(Seq::<PadChange>::empty() + changes =~= changes);
    let unmatched = pads_unmatched(nl, fp.reference, fp.pads);
    assert(Seq::<(Seq<char>, Seq<char>)>::empty() + unmatched =~= unmatched);
    if let Some(v) = value_change(nl, fp) {
        assert(all_values(nl, one) =~= seq![v]);
    }
    if comp_for(nl.comps, fp.reference) is None {
        assert(all_extra(nl, one) =~= seq![fp.reference]);
    }
    if let Some(c) = comp_for(nl.comps, fp.reference) {
        if c.footprint.len() > 0 && c.footprint != fp.footprint {
            assert(all_mismatches(nl, one) =~= seq![(fp.reference, fp.footprint, c.footprint)]);
        }
    }
}

/// A footprint that the schematic does not have is reported and left as it is.
pub proof fn law_unknown_footprint_is_left(nl: Connectivity, board: Board, fp: Fp)
    requires
        board.fps == seq![fp],
        forall|k: int|
            0 <= k < nl.comps.len() ==> (#[trigger] nl.comps[k]).reference != fp.reference,
    ensures
        diff(nl, board).extra_on_board == seq![fp.reference],
        diff(nl, board).pad_net_changes == Seq::<PadChange>::empty(),
        diff(nl, board).value_changes == Seq::<NewValue>::empty(),
        diff(nl, board).footprint_mismatches == Seq::<(Seq<char>, Seq<char>, Seq<char>)>::empty(),
        diff(nl, board).unmatched_board_pads == Seq::<(Seq<char>, Seq<char>)>::empty(),
{
    law_last_component_counts(nl.comps, fp.reference, -1);
    lemma_one_footprint(nl, fp);
}

proof fn lemma_all_missing(comps: Seq<Comp>, fps: Seq<Fp>)
    ensures
        all_missing(comps, fps) == comps.filter(
            |c: Comp|
                forall|i: int|
                    0 <= i < fps.len() ==> (#[trigger] fps[i]).reference != c.reference,
        ).map_values(|c: Comp| c.reference),
    decreases comps.len(),
{
    reveal(Seq::filter);
    let keep = |c: Comp|
        forall|i: int| 0 <= i < fps.len() ==> (#[trigger] fps[i]).reference != c.reference;
    let name = |c: Comp| c.reference;
    if comps.len() > 0 {
        lemma_all_missing(comps.drop_last(), fps);
        assert(keep(comps.last()) == !on_board(fps, comps.last().reference));
    }
    assert(all_missing(comps, fps) =~= comps.filter(keep).map_values(name));
}

/// The components that are missing are those of the schematic that no footprint has the
/// reference of, in the order of the schematic.
pub proof fn law_missing_keep_their_order(nl: Connectivity, board: Board)
    ensures
        diff(nl, board).missing_on_board == nl.comps.filter(
            |c: Comp|
                forall|i: int|
                    0 <= i < board.fps.len() ==> (#[trigger] board.fps[i]).reference != c.reference,
        ).map_values(|c: Comp| c.reference),
{
    lemma_all_missing(nl.comps, board.fps);
}

proof fn lemma_new_net_order(board: Board, changes: Seq<PadChange>, a: int, b: int) -> (i: int)
    requires
        0 <= a < b < new_nets(board, changes).len(),
    ensures
        0 <= i < changes.len(),
        changes[i].new == new_nets(board, changes)[a],
        forall|j: int|
            0 <= j <= i ==> (#[trigger] changes[j]).new != new_nets(board, changes)[b],
    decreases changes.len(),
{
    let before = changes.drop_last();
    let old = new_nets(board, before);
    let all = new_nets(board, changes);
    if b < old.len() {
        let i = lemma_new_net_order(board, before, a, b);
        assert forall|j: int| 0 <= j <= i implies (#[trigger] changes[j]).new != all[b] by {
            assert(before[j] == changes[j]);
        }
        assert(before[i] == changes[i]);
        i
    } else {
        lemma_new_nets(board, before);
        assert(old.contains(old[a]));
        let i = choose|i: int| 0 <= i < before.len() && (#[trigger] before[i]).new == old[a];
        let net = all[b];
        assert(!old.contains(net));
        assert forall|j: int| 0 <= j <= i implies (#[trigger] changes[j]).new != net by {
            assert(before[j].new == changes[j].new);
        }
        assert(before[i] == changes[i]);
        i
    }
}

/// The nets to add stand in the order in which the changes first lead to them.
pub proof fn law_nets_to_add_keep_their_order(nl: Connectivity, board: Board, a: int, b: int)
    requires
        0 <= a < b < diff(nl, board).nets_to_add.len(),
    ensures
        ({
            let d = diff(nl, board);
            exists|i: int|
                0 <= i < d.pad_net_changes.len() && (#[trigger] d.pad_net_changes[i]).new
                    == d.nets_to_add[a] && forall|j: int|
                    0 <= j <= i ==> (#[trigger] d.pad_net_changes[j]).new != d.nets_to_add[b]
        }),
{
    let d = diff(nl, board);
    let i = lemma_new_net_order(board, all_changes(nl, board.fps), a, b);
    assert(d.pad_net_changes[i].new == d.nets_to_add[a]);
}

/// A plan has something to apply where a pad or a value is to change; what it only reports
/// does not count.
pub proof fn law_what_there_is_to_apply(d: Diff)
    ensures
        d.pad_net_changes.len() > 0 ==> !d.nothing_to_apply(),
        d.value_changes.len() > 0 ==> !d.nothing_to_apply(),
        d.pad_net_changes.len() == 0 && d.value_changes.len() == 0 ==> d.nothing_to_apply(),
{
}

/// A board follows the schematic: a pad of a component that the netlist has, and that is the
/// last to be listed under a net which its board does not have it on, is to be put on that
/// net.
pub proof fn law_board_follows_the_netlist(
    tree: Sexp,
    section: Sexp,
    i: int,
    j: int,
    name: Seq<char>,
    board: Board,
    f: int,
    k: int,
)
    requires
        tree.find("nets"@) == Some(section),
        0 <= i < section.find_all("net"@).len(),
        section.find_all("net"@)[i].find_text("name"@) == Some(name),
        0 <= j < section.find_all("net"@)[i].find_all("node"@).len(),
        0 <= f < board.fps.len(),
        0 <= k < board.fps[f].pads.len(),
        board.fps[f].reference.len() > 0,
        board.fps[f].pads[k].number.len() > 0,
        section.find_all("net"@)[i].find_all("node"@)[j].find_text("ref"@) == Some(
            board.fps[f].reference,
        ),
        section.find_all("net"@)[i].find_all("node"@)[j].find_text("pin"@) == Some(
            board.fps[f].pads[k].number,
        ),
        forall|m: int, l: int|
            i < m < section.find_all("net"@).len() && section.find_all("net"@)[m].find_text(
                "name"@,
            ) is Some && 0 <= l < section.find_all("net"@)[m].find_all("node"@).len() ==> !((
            #[trigger] section.find_all("net"@)[m].find_all("node"@)[l]).find_text("ref"@) == Some(
                board.fps[f].reference,
            ) && section.find_all("net"@)[m].find_all("node"@)[l].find_text("pin"@) == Some(
                board.fps[f].pads[k].number,
            )),
        exists|c: int|
            0 <= c < netlist_of(tree).comps.len() && (#[trigger] netlist_of(
                tree,
            ).comps[c]).reference == board.fps[f].reference,
        board.fps[f].pads[k].net != Some(name),
        !is_unconnected(name),
    ensures
        diff(netlist_of(tree), board).pad_net_changes.contains(
            PadChange {
                reference: board.fps[f].reference,
                pad: board.fps[f].pads[k].number,
                old: board.fps[f].pads[k].net,
                new: name,
            },
        ),
        forall|u: int|
            0 <= u < diff(netlist_of(tree), board).unmatched_board_pads.len() ==> (
            #[trigger] diff(netlist_of(tree), board).unmatched_board_pads[u]) != (
                board.fps[f].reference,
                board.fps[f].pads[k].number,
            ),
{
    let nl = netlist_of(tree);
    let r = board.fps[f].reference;
    let p = board.fps[f].pads[k].number;
    law_listed_pad_is_on_its_net(tree, section, i, j, name, r, p);
    lemma_comp_for(nl.comps, r);
    law_every_stale_pad_is_planned(nl, board, f, k);
    lemma_unmatched_unlisted(nl, board.fps);
}

/// No pad that the schematic knows is reported as unknown.
proof fn lemma_unmatched_unlisted(nl: Connectivity, fps: Seq<Fp>)
    ensures
        forall|u: int|
            0 <= u < all_unmatched(nl, fps).len() ==> !nl.pad_nets.contains_key(
                #[trigger] all_unmatched(nl, fps)[u],
            ),
    decreases fps.len(),
{
    if fps.len() > 0 {
        let before = all_unmatched(nl, fps.drop_last());
        let all = all_unmatched(nl, fps);
        let fp = fps.last();
        lemma_unmatched_unlisted(nl, fps.drop_last());
        let own = pads_unmatched(nl, fp.reference, fp.pads);
        lemma_pads_unlisted(nl, fp.reference, fp.pads);
        assert forall|u: int| 0 <= u < all.len() implies !nl.pad_nets.contains_key(
            #[trigger] all[u],
        ) by {
            if u < before.len() {
                assert(all[u] == before[u]);
            } else {
                assert(all[u] == own[u - before.len()]);
            }
        }
    }
}

proof fn lemma_pads_unlisted(nl: Connectivity, reference: Seq<char>, pads: Seq<Pad>)
    ensures
        forall|u: int|
            0 <= u < pads_unmatched(nl, reference, pads).len() ==> !nl.pad_nets.contains_key(
                #[trigger] pads_unmatched(nl, reference, pads)[u],
            ),
    decreases pads.len(),
{
    if pads.len() > 0 {
        let before = pads_unmatched(nl, reference, pads.drop_last());
        let all = pads_unmatched(nl, reference, pads);
        lemma_pads_unlisted(nl, reference, pads.drop_last());
        assert forall|u: int| 0 <= u < all.len() implies !nl.pad_nets.contains_key(
            #[trigger] all[u],
        ) by {
            if u < before.len() {
                assert(all[u] == before[u]);
            }
        }
    }
}

} // verus!
