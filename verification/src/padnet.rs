//! Reassigning the net of one pad by rewriting its `(net …)` entry in the text of a
//! board file. The rest of the file keeps its exact form.
use vstd::prelude::*;
use crate::blocks::{
    balanced_end, find_balanced_block, law_lists_are_balanced_blocks, lemma_block_end,
};
use crate::decimal::{is_digit, is_digit_char};
use crate::edits::{
    is_gap, is_list_text, law_block_edit_is_tree_edit, law_insertion_adds_an_item,
    law_stretch_is_of_the_node, node_at, stretch_of, with_node,
};
use crate::netlist::{has_coded, law_net_table_of_a_board, net_label, opt_text, pad_net};
use crate::sexp::{
    is_delimiter, named_items, parse_sexp, read_items, read_node, read_quoted, read_sexp,
    ref_trees, skip_space, word_end, Sexp, SexpNode,
};
use crate::text::{
    chars_of, find, find_from, find_in, is_first_match, is_last_match, lemma_find_in,
    lemma_first_is_found, lemma_last_is_found, lemma_occurs_between, matches_at, occurs, quoted,
    rfind_in, rfind_to, same_text, splice, spliced, text_of,
};

verus! {

/// Does `c` have the Unicode property `White_Space`?
pub open spec fn white_space(c: char) -> bool {
    ||| '\u{9}' <= c <= '\u{d}'
    ||| c == ' '
    ||| c == '\u{85}'
    ||| c == '\u{a0}'
    ||| c == '\u{1680}'
    ||| '\u{2000}' <= c <= '\u{200a}'
    ||| c == '\u{2028}'
    ||| c == '\u{2029}'
    ||| c == '\u{202f}'
    ||| c == '\u{205f}'
    ||| c == '\u{3000}'
}

/// `char::is_whitespace` tells whether a character has the Unicode property
/// `White_Space`, which the Unicode Character Database gives to these characters.
pub assume_specification[ char::is_whitespace ](c: char) -> (r: bool)
    ensures
        r == white_space(c),
;

/// Why the net of a pad was not set.
#[derive(Debug, Clone, Copy, PartialEq, Eq, Structural)]
pub enum PadNetError {
    /// The board is not one S-expression.
    Malformed,
    /// No footprint has the reference.
    FootprintNotFound,
    /// The reference does not stand inside a footprint.
    NoEnclosingFootprint,
    /// The footprint is not closed.
    UnbalancedFootprint,
    /// The footprint has no pad of that number.
    PadNotFound,
    /// The pad is not closed.
    UnbalancedPad,
    /// The net entry of the pad is not closed.
    UnbalancedNet,
    /// The board numbers its nets and has no number for this one.
    NotInNetTable,
}

impl PadNetError {
    /// What the error says to the one who asked for the net of `pad` on `reference`
    /// to be set to `net_name`.
    pub open spec fn text(
        self,
        reference: Seq<char>,
        pad: Seq<char>,
        net_name: Seq<char>,
    ) -> Seq<char> {
        match self {
            PadNetError::Malformed => "The board file is not one S-expression"@,
            PadNetError::FootprintNotFound => "Footprint '"@ + reference + "' not found"@,
            PadNetError::NoEnclosingFootprint =>
                "Could not locate the footprint block enclosing '"@ + reference + "'"@,
            PadNetError::UnbalancedFootprint => "Unbalanced footprint block"@,
            PadNetError::PadNotFound => "Pad '"@ + pad + "' not found on footprint '"@ + reference
                + "'"@,
            PadNetError::UnbalancedPad => "Unbalanced pad block"@,
            PadNetError::UnbalancedNet => "Unbalanced (net ...) block on pad"@,
            PadNetError::NotInNetTable => "Net '"@ + net_name
                + "' is not in the board's net table, so it has no net code. Add it first (add_net) or check the name."@,
        }
    }

    /// The error in words.
    pub fn message(self, reference: &str, pad: &str, net_name: &str) -> (r: String)
        ensures
            r@ == self.text(reference@, pad@, net_name@),
    {
        match self {
            PadNetError::Malformed => "The board file is not one S-expression".to_owned(),
            PadNetError::FootprintNotFound => quoted("Footprint '", reference, "' not found"),
            PadNetError::NoEnclosingFootprint => quoted(
                "Could not locate the footprint block enclosing '",
                reference,
                "'",
            ),
            PadNetError::UnbalancedFootprint => "Unbalanced footprint block".to_owned(),
            PadNetError::PadNotFound => {
                let mut out = quoted("Pad '", pad, "' not found on footprint '");
                out.append(reference);
                out.append("'");
                out
            },
            PadNetError::UnbalancedPad => "Unbalanced pad block".to_owned(),
            PadNetError::UnbalancedNet => "Unbalanced (net ...) block on pad".to_owned(),
            PadNetError::NotInNetTable => quoted(
                "Net '",
                net_name,
                "' is not in the board's net table, so it has no net code. Add it first (add_net) or check the name.",
            ),
        }
    }
}

/// What became of a request to set the net of a pad.
#[derive(Debug)]
pub enum PadNetEdit {
    /// The pad is already on the net.
    Unchanged,
    /// The board with the pad's net entry rewritten.
    Rewritten { content: String, net_code: Option<String>, old_net: Option<String> },
}

/// What a rewritten board is.
pub struct PadNetChanged {
    pub content: Seq<char>,
    pub net_code: Option<Seq<char>>,
    pub old_net: Option<Seq<char>>,
}

impl View for PadNetEdit {
    type V = Option<PadNetChanged>;

    open spec fn view(&self) -> Option<PadNetChanged> {
        match self {
            PadNetEdit::Unchanged => None,
            PadNetEdit::Rewritten { content, net_code, old_net } => Some(
                PadNetChanged {
                    content: content@,
                    net_code: opt_text(*net_code),
                    old_net: opt_text(*old_net),
                },
            ),
        }
    }
}

// ─── What setting a pad's net is ──────────────────────────────────────────────

/// How the reference of a footprint is written. The closing quote keeps `U1` from
/// matching `U10`.
pub open spec fn reference_pattern(reference: Seq<char>) -> Seq<char> {
    "(property \"Reference\" \""@ + reference + "\""@
}

/// How a pad of a number begins. The space keeps `1` from matching `10`.
pub open spec fn pad_pattern(pad: Seq<char>) -> Seq<char> {
    "(pad \""@ + pad + "\" "@
}

/// The block of a pad: from its opening parenthesis to the position after its
/// closing one.
pub open spec fn pad_block(s: Seq<char>, reference: Seq<char>, pad: Seq<char>) -> Result<
    (int, int),
    PadNetError,
> {
    match find(s, reference_pattern(reference)) {
        None => Err(PadNetError::FootprintNotFound),
        Some(at) => match rfind_in(s, "(footprint "@, at) {
            None => Err(PadNetError::NoEnclosingFootprint),
            Some(open) => match balanced_end(s, open) {
                None => Err(PadNetError::UnbalancedFootprint),
                Some(close) => match find_in(s, pad_pattern(pad), open, close) {
                    None => Err(PadNetError::PadNotFound),
                    Some(start) => match balanced_end(s, start) {
                        None => Err(PadNetError::UnbalancedPad),
                        Some(end) => Ok((start, end)),
                    },
                },
            },
        },
    }
}

/// The block of the first net entry in the block of a pad, if it has one.
pub open spec fn net_block(s: Seq<char>, start: int, end: int) -> Result<
    Option<(int, int)>,
    PadNetError,
> {
    match find_in(s, "(net "@, start, end) {
        None => Ok(None),
        Some(at) => match balanced_end(s, at) {
            None => Err(PadNetError::UnbalancedNet),
            Some(close) => Ok(Some((at, close))),
        },
    }
}

/// Does the first character from `i` on that is not white space begin a number?
pub open spec fn digit_follows(s: Seq<char>, i: int) -> bool
    decreases s.len() - i,
{
    if !(0 <= i < s.len()) {
        false
    } else if white_space(s[i]) {
        digit_follows(s, i + 1)
    } else {
        is_digit(s[i])
    }
}

/// Does a net entry carry a net code: `(net 3 "GND")` rather than `(net "GND")`?
pub open spec fn is_coded(entry: Seq<char>) -> bool {
    digit_follows(entry, 4)
}

/// The code of the first net called `name` in a net table.
pub open spec fn code_of(nets: Seq<Sexp>, name: Seq<char>) -> Option<Seq<char>>
    decreases nets.len(),
{
    if nets.len() == 0 {
        None
    } else if in_table(nets.drop_last(), name) {
        code_of(nets.drop_last(), name)
    } else if nets.last().item_text(2) == Some(name) {
        nets.last().item_text(1)
    } else {
        None
    }
}

/// Is there a net called `name` in the table?
pub open spec fn in_table(nets: Seq<Sexp>, name: Seq<char>) -> bool {
    exists|i: int| 0 <= i < nets.len() && (#[trigger] nets[i]).item_text(2) == Some(name)
}

/// A net entry without a code.
pub open spec fn name_entry(name: Seq<char>) -> Seq<char> {
    "(net \""@ + name + "\")"@
}

/// A net entry with a code.
pub open spec fn coded_entry(code: Seq<char>, name: Seq<char>) -> Seq<char> {
    "(net "@ + code + " \""@ + name + "\")"@
}

/// The entry to write: in the format of the entry that is there, or, where there is
/// none, in that of the board.
pub open spec fn new_entry(coded: bool, code: Option<Seq<char>>, name: Seq<char>) -> Result<
    Seq<char>,
    PadNetError,
> {
    if !coded {
        Ok(name_entry(name))
    } else {
        match code {
            Some(c) => Ok(coded_entry(c, name)),
            None => Err(PadNetError::NotInNetTable),
        }
    }
}

/// What setting the net of the pad whose block is `s[start..end]` gives. `None` is
/// for a pad that is on the net already.
pub open spec fn entry_set(
    s: Seq<char>,
    start: int,
    end: int,
    board_coded: bool,
    code: Option<Seq<char>>,
    name: Seq<char>,
) -> Result<Option<PadNetChanged>, PadNetError> {
    match net_block(s, start, end) {
        Err(e) => Err(e),
        Ok(None) => match new_entry(board_coded, code, name) {
            Err(e) => Err(e),
            Ok(entry) => Ok(
                Some(
                    PadNetChanged {
                        content: splice(s, end - 1, end - 1, " "@ + entry),
                        net_code: code,
                        old_net: None,
                    },
                ),
            ),
        },
        Ok(Some((from, to))) => {
            let old = s.subrange(from, to);
            match new_entry(is_coded(old), code, name) {
                Err(e) => Err(e),
                Ok(entry) => if old == entry {
                    Ok(None)
                } else {
                    Ok(
                        Some(
                            PadNetChanged {
                                content: splice(s, from, to, entry),
                                net_code: code,
                                old_net: Some(old),
                            },
                        ),
                    )
                },
            }
        },
    }
}

/// What setting the net of a pad gives, on the text `s` of a board.
pub open spec fn pad_net_set(
    s: Seq<char>,
    reference: Seq<char>,
    pad: Seq<char>,
    name: Seq<char>,
) -> Result<Option<PadNetChanged>, PadNetError> {
    match read_sexp(s) {
        None => Err(PadNetError::Malformed),
        Some(tree) => match pad_block(s, reference, pad) {
            Err(e) => Err(e),
            Ok((start, end)) => entry_set(
                s,
                start,
                end,
                has_coded(tree.find_all("net"@)),
                code_of(tree.find_all("net"@), name),
                name,
            ),
        },
    }
}

// ─── Setting it ───────────────────────────────────────────────────────────────

fn reference_pattern_text(reference: &str) -> (r: String)
    ensures
        r@ == reference_pattern(reference@),
{
    let mut out = "(property \"Reference\" \"".to_owned();
    out.append(reference);
    out.append("\"");
    out
}

fn pad_pattern_text(pad: &str) -> (r: String)
    ensures
        r@ == pad_pattern(pad@),
{
    let mut out = "(pad \"".to_owned();
    out.append(pad);
    out.append("\" ");
    out
}

/// Finds the block of a pad.
pub fn find_pad_block(s: &Vec<char>, reference: &str, pad: &str) -> (r: Result<
    (usize, usize),
    PadNetError,
>)
    ensures
        match r {
            Ok((start, end)) => pad_block(s@, reference@, pad@) == Ok::<(int, int), PadNetError>(
                (start as int, end as int),
            ) && start + 2 <= end <= s@.len(),
            Err(e) => pad_block(s@, reference@, pad@) == Err::<(int, int), PadNetError>(e),
        },
{
    let pattern = chars_of(reference_pattern_text(reference).as_str());
    proof {
        lemma_find_in(s@, pattern@, 0, s@.len() as int);
    }
    let at = match find_from(s, &pattern, 0, s.len()) {
        Some(at) => at,
        None => {
            return Err(PadNetError::FootprintNotFound);
        },
    };
    let opening = chars_of("(footprint ");
    let open = match rfind_to(s, &opening, at) {
        Some(open) => open,
        None => {
            return Err(PadNetError::NoEnclosingFootprint);
        },
    };
    let close = match find_balanced_block(s, open) {
        Some(close) => close,
        None => {
            return Err(PadNetError::UnbalancedFootprint);
        },
    };
    let pad_start = chars_of(pad_pattern_text(pad).as_str());
    proof {
        lemma_find_in(s@, pad_start@, open as int, close as int);
    }
    let start = match find_from(s, &pad_start, open, close) {
        Some(start) => start,
        None => {
            return Err(PadNetError::PadNotFound);
        },
    };
    match find_balanced_block(s, start) {
        Some(end) => Ok((start, end)),
        None => Err(PadNetError::UnbalancedPad),
    }
}

/// Finds the block of the first net entry of a pad.
pub fn find_net_block(s: &Vec<char>, start: usize, end: usize) -> (r: Result<
    Option<(usize, usize)>,
    PadNetError,
>)
    requires
        start <= end <= s@.len(),
    ensures
        match r {
            Ok(Some((from, to))) => net_block(s@, start as int, end as int) == Ok::<
                Option<(int, int)>,
                PadNetError,
            >(Some((from as int, to as int))) && from + 2 <= to <= s@.len(),
            Ok(None) => net_block(s@, start as int, end as int) == Ok::<
                Option<(int, int)>,
                PadNetError,
            >(None),
            Err(e) => net_block(s@, start as int, end as int) == Err::<
                Option<(int, int)>,
                PadNetError,
            >(e),
        },
{
    let opening = chars_of("(net ");
    proof {
        lemma_find_in(s@, opening@, start as int, end as int);
    }
    match find_from(s, &opening, start, end) {
        None => Ok(None),
        Some(at) => match find_balanced_block(s, at) {
            None => Err(PadNetError::UnbalancedNet),
            Some(close) => Ok(Some((at, close))),
        },
    }
}

/// Does a net entry carry a net code?
pub fn entry_is_coded(entry: &Vec<char>) -> (r: bool)
    ensures
        r == is_coded(entry@),
{
    let mut i: usize = 4;
    while i < entry.len()
        invariant
            4 <= i,
            is_coded(entry@) == digit_follows(entry@, i as int),
        decreases entry@.len() - i,
    {
        if !entry[i].is_whitespace() {
            return is_digit_char(entry[i]);
        }
        i = i + 1;
    }
    false
}

/// The code of the first net called `name` in a net table.
pub fn find_code(nets: &Vec<&SexpNode>, name: &str) -> (r: Option<String>)
    ensures
        opt_text(r) == code_of(ref_trees(nets@), name@),
{
    let ghost all = ref_trees(nets@);
    let mut i: usize = 0;
    assert(!in_table(all.take(0), name@));
    while i < nets.len()
        invariant
            i <= nets@.len(),
            all == ref_trees(nets@),
            !in_table(all.take(i as int), name@),
        decreases nets@.len() - i,
    {
        let n = nets[i];
        let ghost upto = all.take(i + 1);
        proof {
            assert(upto.drop_last() =~= all.take(i as int));
            assert(upto.last() == n@);
        }
        let found = match n.get_str(2) {
            Some(t) => same_text(t, name),
            None => false,
        };
        if found {
            proof {
                assert(upto[i as int].item_text(2) == Some(name@));
                lemma_code_of_prefix(all, i + 1, name@);
            }
            return match n.get_str(1) {
                Some(t) => Some(t.to_owned()),
                None => None,
            };
        }
        proof {
            assert forall|k: int| 0 <= k < upto.len() implies (#[trigger] upto[k]).item_text(2)
                != Some(name@) by {
                if k < i {
                    assert(upto[k] == all.take(i as int)[k]);
                }
            }
        }
        i = i + 1;
    }
    proof {
        assert(all.take(nets@.len() as int) =~= all);
        lemma_code_of_absent(all, name@);
    }
    None
}

/// The first net of a name decides, whatever comes after it.
pub proof fn lemma_code_of_prefix(nets: Seq<Sexp>, n: int, name: Seq<char>)
    requires
        0 < n <= nets.len(),
        in_table(nets.take(n), name),
    ensures
        code_of(nets, name) == code_of(nets.take(n), name),
    decreases nets.len() - n,
{
    if n == nets.len() {
        assert(nets.take(n) =~= nets);
    } else {
        let k = choose|k: int|
            0 <= k < nets.take(n).len() && (#[trigger] nets.take(n)[k]).item_text(2) == Some(name);
        assert(nets.take(n + 1)[k].item_text(2) == Some(name));
        assert(nets.take(n + 1).drop_last() =~= nets.take(n));
        lemma_code_of_prefix(nets, n + 1, name);
    }
}

proof fn lemma_code_of_absent(nets: Seq<Sexp>, name: Seq<char>)
    requires
        !in_table(nets, name),
    ensures
        code_of(nets, name) is None,
    decreases nets.len(),
{
    if nets.len() > 0 {
        assert(nets[nets.len() - 1].item_text(2) != Some(name));
        assert forall|k: int| 0 <= k < nets.drop_last().len() implies (
        #[trigger] nets.drop_last()[k]).item_text(2) != Some(name) by {
            assert(nets.drop_last()[k] == nets[k]);
        }
    }
}

fn any_coded(nets: &Vec<&SexpNode>) -> (r: bool)
    ensures
        r == has_coded(ref_trees(nets@)),
{
    let ghost all = ref_trees(nets@);
    let mut i: usize = 0;
    while i < nets.len()
        invariant
            i <= nets@.len(),
            all == ref_trees(nets@),
            forall|k: int| 0 <= k < i ==> (#[trigger] all[k]).item(2) is None,
        decreases nets@.len() - i,
    {
        if nets[i].get(2).is_some() {
            assert(all[i as int].item(2) is Some);
            return true;
        }
        i = i + 1;
    }
    false
}

/// Writes a net entry.
pub fn net_entry(coded: bool, code: &Option<String>, name: &str) -> (r: Result<
    String,
    PadNetError,
>)
    ensures
        match r {
            Ok(t) => new_entry(coded, opt_text(*code), name@) == Ok::<Seq<char>, PadNetError>(t@),
            Err(e) => new_entry(coded, opt_text(*code), name@) == Err::<Seq<char>, PadNetError>(e),
        },
{
    if !coded {
        let mut out = "(net \"".to_owned();
        out.append(name);
        out.append("\")");
        return Ok(out);
    }
    match code {
        Some(c) => {
            let mut out = "(net ".to_owned();
            out.append(c.as_str());
            out.append(" \"");
            out.append(name);
            out.append("\")");
            Ok(out)
        },
        None => Err(PadNetError::NotInNetTable),
    }
}

fn set_entry(
    s: &Vec<char>,
    start: usize,
    end: usize,
    board_coded: bool,
    code: Option<String>,
    name: &str,
) -> (r: Result<PadNetEdit, PadNetError>)
    requires
        start + 2 <= end <= s@.len(),
    ensures
        match r {
            Ok(e) => entry_set(
                s@,
                start as int,
                end as int,
                board_coded,
                opt_text(code),
                name@,
            ) == Ok::<Option<PadNetChanged>, PadNetError>(e@),
            Err(e) => entry_set(
                s@,
                start as int,
                end as int,
                board_coded,
                opt_text(code),
                name@,
            ) == Err::<Option<PadNetChanged>, PadNetError>(e),
        },
{
    let existing = match find_net_block(s, start, end) {
        Ok(b) => b,
        Err(e) => {
            return Err(e);
        },
    };
    match existing {
        None => {
            let entry = match net_entry(board_coded, &code, name) {
                Ok(t) => t,
                Err(e) => {
                    return Err(e);
                },
            };
            let mut inserted = " ".to_owned();
            inserted.append(entry.as_str());
            let content = spliced(s, end - 1, end - 1, inserted.as_str());
            Ok(PadNetEdit::Rewritten { content, net_code: code, old_net: None })
        },
        Some((from, to)) => {
            let old = text_of(s, from, to);
            let entry = match net_entry(entry_is_coded(&chars_of(old.as_str())), &code, name) {
                Ok(t) => t,
                Err(e) => {
                    return Err(e);
                },
            };
            if old == entry {
                return Ok(PadNetEdit::Unchanged);
            }
            let content = spliced(s, from, to, entry.as_str());
            Ok(PadNetEdit::Rewritten { content, net_code: code, old_net: Some(old) })
        },
    }
}

/// Reassigns the net of the pad numbered `pad` of the footprint called `reference`
/// in the text `content` of a board, keeping the format of its entry: coded
/// `(net 3 "GND")` or name-only `(net "GND")`.
pub fn set_pad_net(content: &str, reference: &str, pad: &str, net_name: &str) -> (r: Result<
    PadNetEdit,
    PadNetError,
>)
    ensures
        match r {
            Ok(e) => pad_net_set(content@, reference@, pad@, net_name@) == Ok::<
                Option<PadNetChanged>,
                PadNetError,
            >(e@),
            Err(e) => pad_net_set(content@, reference@, pad@, net_name@) == Err::<
                Option<PadNetChanged>,
                PadNetError,
            >(e),
        },
{
    let tree = match parse_sexp(content) {
        Ok(t) => t,
        Err(_) => {
            return Err(PadNetError::Malformed);
        },
    };
    let nets = tree.find_all("net");
    let board_coded = any_coded(&nets);
    let code = find_code(&nets, net_name);
    let s = chars_of(content);
    match find_pad_block(&s, reference, pad) {
        Ok((start, end)) => set_entry(&s, start, end, board_coded, code, net_name),
        Err(e) => Err(e),
    }
}

// ─── Laws ─────────────────────────────────────────────────────────────────────

/// The stretch of the text that setting the net of a pad rewrites: the pad's net
/// entry, or the place before its closing parenthesis.
pub open spec fn rewritten_stretch(s: Seq<char>, reference: Seq<char>, pad: Seq<char>) -> (
    int,
    int,
) {
    match pad_block(s, reference, pad) {
        Ok((start, end)) => match net_block(s, start, end) {
            Ok(Some((from, to))) => (from, to),
            _ => (end - 1, end - 1),
        },
        Err(_) => (0, 0),
    }
}

proof fn lemma_stretch(s: Seq<char>, reference: Seq<char>, pad: Seq<char>)
    requires
        pad_block(s, reference, pad) matches Ok((start, end)) && net_block(s, start, end) is Ok,
    ensures
        pad_block(s, reference, pad) matches Ok((start, end)) && 0 <= start < end <= s.len(),
        rewritten_stretch(s, reference, pad).0 >= 0,
        rewritten_stretch(s, reference, pad).0 <= rewritten_stretch(s, reference, pad).1,
        rewritten_stretch(s, reference, pad).1 <= s.len(),
{
    let (start, end) = pad_block(s, reference, pad)->Ok_0;
    lemma_block_end(s, start + 1, 1, false);
    if let Ok(Some((from, to))) = net_block(s, start, end) {
        lemma_block_end(s, from + 1, 1, false);
    }
}

/// Setting the net of a pad is format-preserving: the text before and after the
/// rewritten stretch is kept to the letter.
pub proof fn law_rest_of_the_board_is_kept(
    s: Seq<char>,
    reference: Seq<char>,
    pad: Seq<char>,
    name: Seq<char>,
)
    requires
        pad_net_set(s, reference, pad, name) matches Ok(Some(_)),
    ensures
        ({
            let after = pad_net_set(s, reference, pad, name)->Ok_0->0.content;
            let (from, to) = rewritten_stretch(s, reference, pad);
            let tail = s.len() - to;
            &&& 0 <= from <= to <= s.len()
            &&& after.len() >= from + tail
            &&& after.take(from) == s.take(from)
            &&& after.skip(after.len() - tail) == s.skip(to)
        }),
{
    lemma_stretch(s, reference, pad);
    let after = pad_net_set(s, reference, pad, name)->Ok_0->0.content;
    let (from, to) = rewritten_stretch(s, reference, pad);
    assert(after.take(from) =~= s.take(from));
    assert(after.skip(after.len() - (s.len() - to)) =~= s.skip(to));
}

/// A rewritten net entry keeps its format: one without a code is replaced by one
/// without a code, and one with a code by one with the code of the net.
pub proof fn law_net_format_is_kept(
    s: Seq<char>,
    reference: Seq<char>,
    pad: Seq<char>,
    name: Seq<char>,
)
    requires
        pad_net_set(s, reference, pad, name) matches Ok(Some(_)),
        pad_net_set(s, reference, pad, name)->Ok_0->0.old_net is Some,
    ensures
        ({
            let after = pad_net_set(s, reference, pad, name)->Ok_0->0;
            let old = after.old_net->0;
            let (from, to) = rewritten_stretch(s, reference, pad);
            let entry = after.content.subrange(from, after.content.len() - (s.len() - to));
            &&& old == s.subrange(from, to)
            &&& !is_coded(old) ==> entry == name_entry(name) && !is_coded(entry)
            &&& is_coded(old) ==> after.net_code is Some && entry == coded_entry(
                after.net_code->0,
                name,
            ) && (after.net_code->0.len() > 0 && is_digit(after.net_code->0[0]) ==> is_coded(entry))
        }),
{
    lemma_stretch(s, reference, pad);
    let after = pad_net_set(s, reference, pad, name)->Ok_0->0;
    let old = after.old_net->0;
    let (from, to) = rewritten_stretch(s, reference, pad);
    let entry = after.content.subrange(from, after.content.len() - (s.len() - to));
    reveal_strlit("(net \"");
    reveal_strlit("(net ");
    if is_coded(old) {
        let code = after.net_code->0;
        assert(entry =~= coded_entry(code, name));
        if code.len() > 0 && is_digit(code[0]) {
            assert(entry[4] == ' ');
            assert(entry[5] == code[0]);
            assert(digit_follows(entry, 5));
            assert(digit_follows(entry, 4));
        }
    } else {
        assert(entry =~= name_entry(name));
        assert(entry[4] == ' ');
        assert(entry[5] == '"');
        assert(!digit_follows(entry, 5));
        assert(!digit_follows(entry, 4));
    }
}

/// Has `name` neither a quote nor a backslash, so that it can stand between quotes
/// as it is?
pub open spec fn is_plain(name: Seq<char>) -> bool {
    forall|i: int| 0 <= i < name.len() ==> #[trigger] name[i] != '"' && name[i] != '\\'
}

/// Could `code` stand among the items of a list without ending a word?
pub open spec fn is_bare(code: Seq<char>) -> bool {
    forall|i: int| 0 <= i < code.len() ==> !is_delimiter(#[trigger] code[i])
}

pub proof fn lemma_plain_quoted(s: Seq<char>, i: int, n: int)
    requires
        0 <= i <= n < s.len(),
        s[n] == '"',
        is_plain(s.subrange(i, n)),
    ensures
        read_quoted(s, i) == Some((s.subrange(i, n), n + 1)),
    decreases n - i,
{
    if i < n {
        assert(s.subrange(i, n)[0] == s[i]);
        assert forall|k: int| 0 <= k < s.subrange(i + 1, n).len() implies #[trigger] s.subrange(
            i + 1,
            n,
        )[k] != '"' && s.subrange(i + 1, n)[k] != '\\' by {
            assert(s.subrange(i + 1, n)[k] == s.subrange(i, n)[k + 1]);
        }
        lemma_plain_quoted(s, i + 1, n);
        assert(seq![s[i]] + s.subrange(i + 1, n) =~= s.subrange(i, n));
    } else {
        assert(s.subrange(i, n) =~= Seq::<char>::empty());
    }
}

/// A word without delimiters ends where a delimiter follows.
pub proof fn lemma_bare_word(s: Seq<char>, i: int, n: int)
    requires
        0 <= i <= n <= s.len(),
        is_bare(s.subrange(i, n)),
        n < s.len() ==> is_delimiter(s[n]),
    ensures
        word_end(s, i) == n,
    decreases n - i,
{
    if i < n {
        assert(s.subrange(i, n)[0] == s[i]);
        assert forall|k: int| 0 <= k < s.subrange(i + 1, n).len() implies !is_delimiter(
            #[trigger] s.subrange(i + 1, n)[k],
        ) by {
            assert(s.subrange(i + 1, n)[k] == s.subrange(i, n)[k + 1]);
        }
        lemma_bare_word(s, i + 1, n);
    }
}

/// Reads the end of a net entry: the name between quotes and the parenthesis.
proof fn lemma_entry_tail(s: Seq<char>, i: int, name: Seq<char>)
    requires
        0 <= i,
        s.len() == i + 4 + name.len(),
        s[i] == ' ',
        s[i + 1] == '"',
        s.subrange(i + 2, i + 2 + name.len()) == name,
        s[i + 2 + name.len()] == '"',
        s[i + 3 + name.len()] == ')',
        is_plain(name),
    ensures
        read_items(s, i) == Some((seq![Sexp::Str(name)], s.len() as int)),
{
    let n = i + 2 + name.len();
    lemma_plain_quoted(s, i + 2, n);
    assert(skip_space(s, i + 1) == i + 1);
    assert(skip_space(s, i) == i + 1);
    assert(read_node(s, i + 1) == Some((Sexp::Str(name), n + 1)));
    assert(skip_space(s, n + 1) == n + 1);
    assert(read_items(s, n + 1) == Some((Seq::<Sexp>::empty(), n + 2)));
    assert(seq![Sexp::Str(name)] + Seq::<Sexp>::empty() =~= seq![Sexp::Str(name)]);
}

proof fn lemma_net_word(s: Seq<char>)
    requires
        s.len() > 5,
        s[0] == '(',
        s.subrange(1, 4) == "net"@,
        s[4] == ' ',
    ensures
        read_node(s, 0) == (match read_items(s, 4) {
            Some((rest, end)) => Some((Sexp::List(seq![Sexp::Atom("net"@)] + rest), end)),
            None => None,
        }),
{
    reveal_strlit("net");
    assert(s[1] == s.subrange(1, 4)[0]);
    assert(s[2] == s.subrange(1, 4)[1]);
    assert(s[3] == s.subrange(1, 4)[2]);
    assert(is_bare(s.subrange(1, 4)));
    lemma_bare_word(s, 1, 4);
    assert(skip_space(s, 0) == 0);
    assert(skip_space(s, 1) == 1);
    assert(read_node(s, 1) == Some((Sexp::Atom("net"@), 4int)));
}

/// What a net entry is read as.
pub open spec fn entry_tree(coded: bool, code: Option<Seq<char>>, name: Seq<char>) -> Sexp {
    if coded {
        Sexp::List(seq![Sexp::Atom("net"@), Sexp::Atom(code->0), Sexp::Str(name)])
    } else {
        Sexp::List(seq![Sexp::Atom("net"@), Sexp::Str(name)])
    }
}

/// Can an entry be read back: is the name one that can stand between quotes as it is,
/// and the code, where there is to be one, a word?
pub open spec fn can_be_read(coded: bool, code: Option<Seq<char>>, name: Seq<char>) -> bool {
    is_plain(name) && (coded ==> code is Some && code->0.len() > 0 && is_bare(code->0))
}

/// What a net entry says is read back: it is the text of one list, which names the net.
pub proof fn law_entry_reads_back(coded: bool, code: Option<Seq<char>>, name: Seq<char>)
    requires
        can_be_read(coded, code, name),
    ensures
        new_entry(coded, code, name) matches Ok(entry) && is_list_text(
            entry,
            entry_tree(coded, code, name),
        ),
        entry_tree(coded, code, name).is_named("net"@),
        net_label(entry_tree(coded, code, name)) == Some(name),
{
    reveal_strlit("net");
    reveal_strlit("\")");
    if coded {
        let c = code->0;
        let s = coded_entry(c, name);
        reveal_strlit("(net ");
        reveal_strlit(" \"");
        let n: int = 5int + c.len();
        assert(s.subrange(1, 4) =~= "net"@);
        assert(s.subrange(5, n) =~= c);
        assert(s.subrange(n + 2, n + 2 + name.len()) =~= name);
        lemma_entry_tail(s, n, name);
        lemma_net_word(s);
        assert(s[5] == s.subrange(5, n)[0]);
        lemma_bare_word(s, 5, n);
        assert(skip_space(s, 5) == 5);
        assert(skip_space(s, 4) == 5);
        assert(read_node(s, 5) == Some((Sexp::Atom(c), n)));
        assert(seq![Sexp::Atom("net"@)] + (seq![Sexp::Atom(c)] + seq![Sexp::Str(name)])
            =~= entry_tree(coded, code, name).items());
    } else {
        let s = name_entry(name);
        reveal_strlit("(net \"");
        assert(s.subrange(1, 4) =~= "net"@);
        assert(s.subrange(6, 6int + name.len()) =~= name);
        lemma_entry_tail(s, 4, name);
        lemma_net_word(s);
        assert(seq![Sexp::Atom("net"@)] + seq![Sexp::Str(name)] =~= entry_tree(
            coded,
            code,
            name,
        ).items());
    }
}

/// What setting the net of a pad writes is read back: where the rewritten entry is an
/// expression of the board, and not a part of some quoted text, the new board is the
/// old one with that expression replaced by an entry that names the net.
pub proof fn law_rewritten_net_reads_back(
    s: Seq<char>,
    reference: Seq<char>,
    pad: Seq<char>,
    name: Seq<char>,
    path: Seq<nat>,
)
    requires
        pad_net_set(s, reference, pad, name) matches Ok(Some(_)),
        pad_net_set(s, reference, pad, name)->Ok_0->0.old_net is Some,
        stretch_of(s, 0, path) == Some(rewritten_stretch(s, reference, pad)),
        can_be_read(
            is_coded(pad_net_set(s, reference, pad, name)->Ok_0->0.old_net->0),
            pad_net_set(s, reference, pad, name)->Ok_0->0.net_code,
            name,
        ),
    ensures
        ({
            let after = pad_net_set(s, reference, pad, name)->Ok_0->0;
            let entry = entry_tree(is_coded(after.old_net->0), after.net_code, name);
            &&& net_label(entry) == Some(name)
            &&& read_sexp(after.content) == Some(with_node(read_sexp(s)->0, path, entry))
        }),
{
    let after = pad_net_set(s, reference, pad, name)->Ok_0->0;
    let coded = is_coded(after.old_net->0);
    let (from, to) = rewritten_stretch(s, reference, pad);
    let (start, end) = pad_block(s, reference, pad)->Ok_0;
    law_entry_reads_back(coded, after.net_code, name);
    law_stretch_is_of_the_node(s, 0, path);
    lemma_stretch(s, reference, pad);
    lemma_find_in(s, "(net "@, start, end);
    reveal_strlit("(net ");
    assert(s.subrange(from, from + 5)[0] == "(net "@[0]);
    assert(s[from] == '(');
    assert(skip_space(s, from) == from);
    law_block_edit_is_tree_edit(
        s,
        path,
        new_entry(coded, after.net_code, name)->Ok_0,
        entry_tree(coded, after.net_code, name),
    );
}

/// What setting the net of a pad without one writes is read back: where the pad is an
/// expression of the board, and not a part of some quoted text, the new board is the old
/// one with an entry that names the net added to that pad.
pub proof fn law_inserted_net_reads_back(
    s: Seq<char>,
    reference: Seq<char>,
    pad: Seq<char>,
    name: Seq<char>,
    path: Seq<nat>,
)
    requires
        pad_net_set(s, reference, pad, name) matches Ok(Some(_)),
        pad_net_set(s, reference, pad, name)->Ok_0->0.old_net is None,
        stretch_of(s, 0, path) == Some(pad_block(s, reference, pad)->Ok_0),
        can_be_read(
            has_coded(read_sexp(s)->0.find_all("net"@)),
            pad_net_set(s, reference, pad, name)->Ok_0->0.net_code,
            name,
        ),
    ensures
        ({
            let after = pad_net_set(s, reference, pad, name)->Ok_0->0;
            let tree = read_sexp(s)->0;
            let entry = entry_tree(has_coded(tree.find_all("net"@)), after.net_code, name);
            &&& net_label(entry) == Some(name)
            &&& node_at(tree, path) matches Some(Sexp::List(items)) && read_sexp(after.content)
                == Some(with_node(tree, path, Sexp::List(items.push(entry))))
        }),
{
    let after = pad_net_set(s, reference, pad, name)->Ok_0->0;
    let tree = read_sexp(s)->0;
    let coded = has_coded(tree.find_all("net"@));
    let (start, end) = pad_block(s, reference, pad)->Ok_0;
    law_entry_reads_back(coded, after.net_code, name);
    law_stretch_is_of_the_node(s, 0, path);
    lemma_block_end(s, start + 1, 1, false);
    assert(s[start] == '(');
    assert(skip_space(s, start) == start);
    reveal_strlit(" ");
    assert(is_gap(" "@));
    law_insertion_adds_an_item(
        s,
        path,
        " "@,
        new_entry(coded, after.net_code, name)->Ok_0,
        entry_tree(coded, after.net_code, name),
    );
}

proof fn lemma_first_named(items: Seq<Sexp>, name: Seq<char>, k: int)
    requires
        0 <= k < items.len(),
        items[k].is_named(name),
        forall|i: int| 0 <= i < k ==> !(#[trigger] items[i]).is_named(name),
    ensures
        named_items(items, name).len() > 0,
        named_items(items, name)[0] == items[k],
    decreases items.len(),
{
    let before = items.drop_last();
    if k < items.len() - 1 {
        assert(before[k] == items[k]);
        assert forall|i: int| 0 <= i < k implies !(#[trigger] before[i]).is_named(name) by {
            assert(before[i] == items[i]);
        }
        lemma_first_named(before, name, k);
    } else {
        lemma_none_named(before, name);
    }
}

proof fn lemma_none_named(items: Seq<Sexp>, name: Seq<char>)
    requires
        forall|i: int| 0 <= i < items.len() ==> !(#[trigger] items[i]).is_named(name),
    ensures
        named_items(items, name).len() == 0,
    decreases items.len(),
{
    if items.len() > 0 {
        assert(!items[items.len() - 1].is_named(name));
        assert forall|i: int| 0 <= i < items.drop_last().len() implies !(
        #[trigger] items.drop_last()[i]).is_named(name) by {
            assert(items.drop_last()[i] == items[i]);
        }
        lemma_none_named(items.drop_last(), name);
    }
}

/// A pad whose first net entry is replaced by one that names a net is on that net.
pub proof fn law_pad_is_on_the_new_net(
    items: Seq<Sexp>,
    k: int,
    coded: bool,
    code: Option<Seq<char>>,
    name: Seq<char>,
)
    requires
        0 <= k < items.len(),
        items[k].is_named("net"@),
        forall|i: int| 0 <= i < k ==> !(#[trigger] items[i]).is_named("net"@),
    ensures
        pad_net(Sexp::List(items.update(k, entry_tree(coded, code, name)))) == Some(name),
{
    let entry = entry_tree(coded, code, name);
    let after = items.update(k, entry);
    assert(entry.is_named("net"@));
    assert forall|i: int| 0 <= i < k implies !(#[trigger] after[i]).is_named("net"@) by {
        assert(after[i] == items[i]);
    }
    lemma_first_named(after, "net"@, k);
}

/// The quote that ends the pattern of a reference keeps one reference from being taken
/// for another: where the patterns of two references without quotes stand in the same
/// place, they are the same reference.
pub proof fn law_references_are_not_confused(s: Seq<char>, a: Seq<char>, b: Seq<char>, i: int)
    requires
        matches_at(s, reference_pattern(a), i),
        matches_at(s, reference_pattern(b), i),
        forall|k: int| 0 <= k < a.len() ==> #[trigger] a[k] != '"',
        forall|k: int| 0 <= k < b.len() ==> #[trigger] b[k] != '"',
    ensures
        a == b,
{
    reveal_strlit("(property \"Reference\" \"");
    reveal_strlit("\"");
    let n = "(property \"Reference\" \""@.len() as int;
    lemma_same_text(s, i + n, a, b, reference_pattern(a), reference_pattern(b), i, n);
}

/// The quote that ends the number in the pattern of a pad keeps one pad from being taken
/// for another.
pub proof fn law_pads_are_not_confused(s: Seq<char>, a: Seq<char>, b: Seq<char>, i: int)
    requires
        matches_at(s, pad_pattern(a), i),
        matches_at(s, pad_pattern(b), i),
        forall|k: int| 0 <= k < a.len() ==> #[trigger] a[k] != '"',
        forall|k: int| 0 <= k < b.len() ==> #[trigger] b[k] != '"',
    ensures
        a == b,
{
    reveal_strlit("(pad \"");
    reveal_strlit("\" ");
    let n = "(pad \""@.len() as int;
    lemma_same_text(s, i + n, a, b, pad_pattern(a), pad_pattern(b), i, n);
}

proof fn lemma_same_text(
    s: Seq<char>,
    at: int,
    a: Seq<char>,
    b: Seq<char>,
    pa: Seq<char>,
    pb: Seq<char>,
    i: int,
    n: int,
)
    requires
        0 <= n,
        at == i + n,
        matches_at(s, pa, i),
        matches_at(s, pb, i),
        pa.len() > n + a.len(),
        pb.len() > n + b.len(),
        forall|k: int| 0 <= k < a.len() ==> pa[n + k] == #[trigger] a[k],
        forall|k: int| 0 <= k < b.len() ==> pb[n + k] == #[trigger] b[k],
        pa[n + a.len()] == '"',
        pb[n + b.len()] == '"',
        forall|k: int| 0 <= k < a.len() ==> #[trigger] a[k] != '"',
        forall|k: int| 0 <= k < b.len() ==> #[trigger] b[k] != '"',
    ensures
        a == b,
{
    assert forall|k: int| 0 <= k < pa.len() implies s[i + k] == #[trigger] pa[k] by {
        assert(s.subrange(i, i + pa.len())[k] == s[i + k]);
    }
    assert forall|k: int| 0 <= k < pb.len() implies s[i + k] == #[trigger] pb[k] by {
        assert(s.subrange(i, i + pb.len())[k] == s[i + k]);
    }
    if a.len() < b.len() {
        assert(b[a.len() as int] == pb[n + a.len()]);
        assert(pa[n + a.len()] == s[i + (n + a.len())]);
    } else if b.len() < a.len() {
        assert(a[b.len() as int] == pa[n + b.len()]);
        assert(pb[n + b.len()] == s[i + (n + b.len())]);
    }
    assert forall|k: int| 0 <= k < a.len() implies a[k] == b[k] by {
        assert(pa[n + k] == s[i + (n + k)]);
        assert(pb[n + k] == s[i + (n + k)]);
    }
    assert(a =~= b);
}

// ─── Which pad, and what is written ───────────────────────────────────────────

/// The pad that is set is the one that was asked for: on the footprint that encloses the
/// first property with the reference, the first pad of the number, from the parenthesis that
/// opens its list to the one that closes it.
pub proof fn law_which_pad_is_set(
    s: Seq<char>,
    reference: Seq<char>,
    pad: Seq<char>,
    at: int,
    open: int,
    close: int,
    start: int,
    end: int,
)
    requires
        is_first_match(
            s,
            "(property \"Reference\" \""@ + reference + "\""@,
            0,
            s.len() as int,
            at,
        ),
        is_last_match(s, "(footprint "@, at, open),
        read_node(s, open) matches Some((_, e)) && e == close,
        is_first_match(s, "(pad \""@ + pad + "\" "@, open, close, start),
        read_node(s, start) matches Some((_, e)) && e == end,
    ensures
        pad_block(s, reference, pad) == Ok::<(int, int), PadNetError>((start, end)),
{
    reveal_strlit("(footprint ");
    reveal_strlit("(pad \"");
    lemma_first_is_found(s, reference_pattern(reference), 0, s.len() as int, at);
    lemma_last_is_found(s, "(footprint "@, at, open);
    assert(s.subrange(open, open + "(footprint "@.len())[0] == s[open]);
    law_lists_are_balanced_blocks(s, open);
    lemma_first_is_found(s, pad_pattern(pad), open, close, start);
    assert(s.subrange(start, start + pad_pattern(pad).len())[0] == s[start]);
    law_lists_are_balanced_blocks(s, start);
}

/// A reference that the board does not have, and a number that the footprint does not have,
/// are errors of their own.
pub proof fn law_pad_that_is_not_there(
    s: Seq<char>,
    reference: Seq<char>,
    pad: Seq<char>,
    name: Seq<char>,
    at: int,
    open: int,
    close: int,
)
    requires
        read_sexp(s) is Some,
    ensures
        !occurs(s, "(property \"Reference\" \""@ + reference + "\""@) ==> pad_net_set(
            s,
            reference,
            pad,
            name,
        ) == Err::<Option<PadNetChanged>, PadNetError>(PadNetError::FootprintNotFound),
        is_first_match(
            s,
            "(property \"Reference\" \""@ + reference + "\""@,
            0,
            s.len() as int,
            at,
        ) && is_last_match(s, "(footprint "@, at, open) && read_node(s, open) is Some && (
        read_node(s, open)->0).1 == close && (forall|j: int|
            open <= j < close ==> !#[trigger] matches_at(s, "(pad \""@ + pad + "\" "@, j))
            ==> pad_net_set(s, reference, pad, name) == Err::<Option<PadNetChanged>, PadNetError>(
            PadNetError::PadNotFound,
        ),
{
    lemma_find_in(s, reference_pattern(reference), 0, s.len() as int);
    if is_first_match(s, reference_pattern(reference), 0, s.len() as int, at) && is_last_match(
        s,
        "(footprint "@,
        at,
        open,
    ) && read_node(s, open) is Some && (read_node(s, open)->0).1 == close && (forall|j: int|
        open <= j < close ==> !#[trigger] matches_at(s, pad_pattern(pad), j)) {
        reveal_strlit("(footprint ");
        reveal_strlit("(pad \"");
        lemma_first_is_found(s, reference_pattern(reference), 0, s.len() as int, at);
        lemma_last_is_found(s, "(footprint "@, at, open);
        assert(s.subrange(open, open + "(footprint "@.len())[0] == s[open]);
        law_lists_are_balanced_blocks(s, open);
        lemma_find_in(s, pad_pattern(pad), open, close);
    }
}

/// The code of a net is the one in its first declaration in the net table; a net that is not
/// in the table has none.
pub proof fn law_code_is_that_of_the_first_declaration(nets: Seq<Sexp>, name: Seq<char>, k: int)
    requires
        0 <= k <= nets.len(),
        forall|j: int| 0 <= j < k ==> (#[trigger] nets[j]).item_text(2) != Some(name),
        k < nets.len() ==> nets[k].item_text(2) == Some(name),
    ensures
        k < nets.len() ==> code_of(nets, name) == nets[k].item_text(1),
        k == nets.len() ==> code_of(nets, name) is None,
{
    if k == nets.len() {
        lemma_code_of_absent(nets, name);
    } else {
        let upto = nets.take(k + 1);
        assert(upto[k].item_text(2) == Some(name));
        lemma_code_of_prefix(nets, k + 1, name);
        assert(upto.drop_last() =~= nets.take(k));
        assert forall|j: int| 0 <= j < upto.drop_last().len() implies (
        #[trigger] upto.drop_last()[j]).item_text(2) != Some(name) by {
            assert(upto.drop_last()[j] == nets[j]);
        }
        assert(!in_table(upto.drop_last(), name));
    }
}

/// An entry carries a code where a digit follows the white space behind `net`.
pub proof fn law_entries_with_a_code(entry: Seq<char>, k: int)
    requires
        4 <= k < entry.len(),
        forall|j: int| 4 <= j < k ==> white_space(#[trigger] entry[j]),
        !white_space(entry[k]),
    ensures
        is_coded(entry) <==> '0' <= entry[k] <= '9',
{
    lemma_digit_follows(entry, 4, k);
}

proof fn lemma_digit_follows(entry: Seq<char>, i: int, k: int)
    requires
        0 <= i <= k < entry.len(),
        forall|j: int| i <= j < k ==> white_space(#[trigger] entry[j]),
        !white_space(entry[k]),
    ensures
        digit_follows(entry, i) <==> '0' <= entry[k] <= '9',
    decreases k - i,
{
    if i < k {
        assert(white_space(entry[i]));
        lemma_digit_follows(entry, i + 1, k);
    }
}

/// Setting the net of a pad whose first net entry is the list from `from` to `to` changes
/// nothing just where that entry is already what would be written. Otherwise it puts in its
/// place an entry of the same format that names the net, with the code of the net where the
/// format has one; it fails just where the format needs a code that the net does not have.
pub proof fn law_what_setting_an_entry_does(
    s: Seq<char>,
    reference: Seq<char>,
    pad: Seq<char>,
    name: Seq<char>,
    start: int,
    end: int,
    from: int,
    to: int,
)
    requires
        read_sexp(s) is Some,
        pad_block(s, reference, pad) == Ok::<(int, int), PadNetError>((start, end)),
        is_first_match(s, "(net "@, start, end, from),
        read_node(s, from) matches Some((_, e)) && e == to,
    ensures
        ({
            let old = s.subrange(from, to);
            let code = code_of(read_sexp(s)->0.find_all("net"@), name);
            let written = if is_coded(old) {
                "(net "@ + code->0 + " \""@ + name + "\")"@
            } else {
                "(net \""@ + name + "\")"@
            };
            let r = pad_net_set(s, reference, pad, name);
            &&& is_coded(old) && code is None ==> r == Err::<Option<PadNetChanged>, PadNetError>(
                PadNetError::NotInNetTable,
            )
            &&& !is_coded(old) || code is Some ==> {
                &&& old == written ==> r == Ok::<Option<PadNetChanged>, PadNetError>(None)
                &&& old != written ==> r == Ok::<Option<PadNetChanged>, PadNetError>(
                    Some(
                        PadNetChanged {
                            content: s.take(from) + written + s.skip(to),
                            net_code: code,
                            old_net: Some(old),
                        },
                    ),
                )
            }
        }),
{
    reveal_strlit("(net ");
    lemma_first_is_found(s, "(net "@, start, end, from);
    assert(s.subrange(from, from + 5)[0] == s[from]);
    law_lists_are_balanced_blocks(s, from);
    lemma_stretch(s, reference, pad);
    let old = s.subrange(from, to);
    let code = code_of(read_sexp(s)->0.find_all("net"@), name);
    if let Ok(entry) = new_entry(is_coded(old), code, name) {
        assert(splice(s, from, to, entry) =~= s.take(from) + entry + s.skip(to));
    }
}

/// Setting the net of a pad without a net entry always writes one, before the parenthesis
/// that closes the pad and in the format of the board; it fails just where that format needs
/// a code that the net does not have.
pub proof fn law_what_adding_an_entry_does(
    s: Seq<char>,
    reference: Seq<char>,
    pad: Seq<char>,
    name: Seq<char>,
    start: int,
    end: int,
)
    requires
        read_sexp(s) is Some,
        pad_block(s, reference, pad) == Ok::<(int, int), PadNetError>((start, end)),
        forall|j: int| start <= j < end ==> !#[trigger] matches_at(s, "(net "@, j),
    ensures
        ({
            let coded = exists|i: int|
                0 <= i < read_sexp(s)->0.find_all("net"@).len() && (
                #[trigger] read_sexp(s)->0.find_all("net"@)[i]).items().len() > 2;
            let code = code_of(read_sexp(s)->0.find_all("net"@), name);
            let written = if coded {
                "(net "@ + code->0 + " \""@ + name + "\")"@
            } else {
                "(net \""@ + name + "\")"@
            };
            let r = pad_net_set(s, reference, pad, name);
            &&& coded && code is None ==> r == Err::<Option<PadNetChanged>, PadNetError>(
                PadNetError::NotInNetTable,
            )
            &&& !coded || code is Some ==> r == Ok::<Option<PadNetChanged>, PadNetError>(
                Some(
                    PadNetChanged {
                        content: s.take(end - 1) + " "@ + written + s.skip(end - 1),
                        net_code: code,
                        old_net: None,
                    },
                ),
            )
        }),
{
    let nets = read_sexp(s)->0.find_all("net"@);
    law_net_table_of_a_board(read_sexp(s)->0, name);
    reveal_strlit("(net ");
    lemma_find_in(s, "(net "@, start, end);
    if let Some(i) = find_in(s, "(net "@, start, end) {
        assert(matches_at(s, "(net "@, i));
    }
    lemma_stretch(s, reference, pad);
    let code = code_of(nets, name);
    if let Ok(entry) = new_entry(has_coded(nets), code, name) {
        assert(splice(s, end - 1, end - 1, " "@ + entry) =~= s.take(end - 1) + " "@ + entry
            + s.skip(end - 1));
    }
}

/// An error says which component, which pad and which net were asked for, as far as it is
/// about them.
pub proof fn law_errors_name_what_was_asked_for(
    reference: Seq<char>,
    pad: Seq<char>,
    name: Seq<char>,
)
    ensures
        occurs(PadNetError::FootprintNotFound.text(reference, pad, name), reference),
        occurs(PadNetError::NoEnclosingFootprint.text(reference, pad, name), reference),
        occurs(PadNetError::PadNotFound.text(reference, pad, name), reference),
        occurs(PadNetError::PadNotFound.text(reference, pad, name), pad),
        occurs(PadNetError::NotInNetTable.text(reference, pad, name), name),
{
    lemma_occurs_between("Footprint '"@, reference, "' not found"@);
    lemma_occurs_between(
        "Could not locate the footprint block enclosing '"@,
        reference,
        "'"@,
    );
    lemma_occurs_between("Pad '"@ + pad + "' not found on footprint '"@, reference, "'"@);
    let rest = "' not found on footprint '"@ + reference + "'"@;
    lemma_occurs_between("Pad '"@, pad, rest);
    assert("Pad '"@ + pad + rest =~= PadNetError::PadNotFound.text(reference, pad, name));
    lemma_occurs_between(
        "Net '"@,
        name,
        "' is not in the board's net table, so it has no net code. Add it first (add_net) or check the name."@,
    );
}

/// A board that is not one expression is not edited, and a reference outside of every
/// footprint is an error of its own.
pub proof fn law_boards_that_are_not_edited(
    s: Seq<char>,
    reference: Seq<char>,
    pad: Seq<char>,
    name: Seq<char>,
    at: int,
)
    ensures
        read_sexp(s) is None ==> pad_net_set(s, reference, pad, name) == Err::<
            Option<PadNetChanged>,
            PadNetError,
        >(PadNetError::Malformed),
        read_sexp(s) is Some && is_first_match(
            s,
            "(property \"Reference\" \""@ + reference + "\""@,
            0,
            s.len() as int,
            at,
        ) && (forall|j: int| 0 <= j < at ==> !#[trigger] matches_at(s, "(footprint "@, j))
            ==> pad_net_set(s, reference, pad, name) == Err::<Option<PadNetChanged>, PadNetError>(
            PadNetError::NoEnclosingFootprint,
        ),
{
    if is_first_match(s, reference_pattern(reference), 0, s.len() as int, at) && (forall|j: int|
        0 <= j < at ==> !#[trigger] matches_at(s, "(footprint "@, j)) {
        lemma_first_is_found(s, reference_pattern(reference), 0, s.len() as int, at);
        reveal_strlit("(footprint ");
        if rfind_in(s, "(footprint "@, at) is Some {
            let i = choose|i: int| is_last_match(s, "(footprint "@, at, i);
            assert(matches_at(s, "(footprint "@, i));
        }
    }
}

/// What is reached by a path once something in it, or all of it, is replaced.
proof fn lemma_replaced_node(tree: Sexp, path: Seq<nat>, new: Sexp)
    requires
        node_at(tree, path) is Some,
    ensures
        node_at(with_node(tree, path, new), path) == Some(new),
    decreases path.len(),
{
    if path.len() > 0 {
        let k = path[0] as int;
        let rest = path.skip(1);
        assert(tree is List);
        lemma_replaced_node(tree.items()[k], rest, new);
        let after = with_node(tree, path, new);
        assert(after.items()[k] == with_node(tree.items()[k], rest, new));
    }
}

proof fn lemma_replaced_item(tree: Sexp, path: Seq<nat>, k: nat, new: Sexp)
    requires
        node_at(tree, path) matches Some(Sexp::List(items)) && k < items.len(),
    ensures
        node_at(with_node(tree, path.push(k), new), path) == Some(
            Sexp::List(node_at(tree, path)->0.items().update(k as int, new)),
        ),
    decreases path.len(),
{
    let whole = path.push(k);
    if path.len() == 0 {
        assert(whole[0] == k);
        assert(whole.skip(1) =~= Seq::<nat>::empty());
        let items = tree.items();
        assert(with_node(items[k as int], whole.skip(1), new) == new);
    } else {
        let i = path[0] as int;
        assert(whole[0] == path[0]);
        assert(whole.skip(1) =~= path.skip(1).push(k));
        assert(tree is List);
        lemma_replaced_item(tree.items()[i], path.skip(1), k, new);
        let after = with_node(tree, whole, new);
        assert(after.items()[i] == with_node(tree.items()[i], whole.skip(1), new));
    }
}

/// A pad whose net was set is read back as being on that net: where the entry that is
/// rewritten is the first net item of the pad, the pad of the new board carries the net.
pub proof fn law_set_pad_is_on_the_net(
    s: Seq<char>,
    reference: Seq<char>,
    pad: Seq<char>,
    name: Seq<char>,
    path: Seq<nat>,
    k: nat,
)
    requires
        pad_net_set(s, reference, pad, name) matches Ok(Some(_)),
        pad_net_set(s, reference, pad, name)->Ok_0->0.old_net is Some,
        stretch_of(s, 0, path.push(k)) == Some(rewritten_stretch(s, reference, pad)),
        can_be_read(
            is_coded(pad_net_set(s, reference, pad, name)->Ok_0->0.old_net->0),
            pad_net_set(s, reference, pad, name)->Ok_0->0.net_code,
            name,
        ),
        node_at(read_sexp(s)->0, path) matches Some(Sexp::List(items)) && k < items.len() && (
        items[k as int].is_named("net"@)) && forall|i: int|
            0 <= i < k ==> !(#[trigger] items[i]).is_named("net"@),
    ensures
        read_sexp(pad_net_set(s, reference, pad, name)->Ok_0->0.content) matches Some(after)
            && node_at(after, path) is Some && pad_net(node_at(after, path)->0) == Some(name),
{
    let after = pad_net_set(s, reference, pad, name)->Ok_0->0;
    let coded = is_coded(after.old_net->0);
    let tree = read_sexp(s)->0;
    let items = node_at(tree, path)->0.items();
    law_rewritten_net_reads_back(s, reference, pad, name, path.push(k));
    lemma_replaced_item(tree, path, k, entry_tree(coded, after.net_code, name));
    law_pad_is_on_the_new_net(items, k as int, coded, after.net_code, name);
}

/// A pad that had no net and was given one is read back as being on that net.
pub proof fn law_new_pad_is_on_the_net(
    s: Seq<char>,
    reference: Seq<char>,
    pad: Seq<char>,
    name: Seq<char>,
    path: Seq<nat>,
)
    requires
        pad_net_set(s, reference, pad, name) matches Ok(Some(_)),
        pad_net_set(s, reference, pad, name)->Ok_0->0.old_net is None,
        stretch_of(s, 0, path) == Some(pad_block(s, reference, pad)->Ok_0),
        can_be_read(
            has_coded(read_sexp(s)->0.find_all("net"@)),
            pad_net_set(s, reference, pad, name)->Ok_0->0.net_code,
            name,
        ),
        node_at(read_sexp(s)->0, path) matches Some(Sexp::List(items)) && forall|i: int|
            0 <= i < items.len() ==> !(#[trigger] items[i]).is_named("net"@),
    ensures
        read_sexp(pad_net_set(s, reference, pad, name)->Ok_0->0.content) matches Some(after)
            && node_at(after, path) is Some && pad_net(node_at(after, path)->0) == Some(name),
{
    let after = pad_net_set(s, reference, pad, name)->Ok_0->0;
    let tree = read_sexp(s)->0;
    let coded = has_coded(tree.find_all("net"@));
    let items = node_at(tree, path)->0.items();
    let entry = entry_tree(coded, after.net_code, name);
    law_inserted_net_reads_back(s, reference, pad, name, path);
    lemma_replaced_node(tree, path, Sexp::List(items.push(entry)));
    let all = items.push(entry);
    assert(entry.is_named("net"@));
    assert forall|i: int| 0 <= i < items.len() implies !(#[trigger] all[i]).is_named("net"@) by {
        assert(all[i] == items[i]);
    }
    lemma_first_named(all, "net"@, items.len() as int);
}

} // verus!
