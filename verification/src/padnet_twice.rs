//! Setting the net of a pad a second time finds the same pad, on its net already.
use vstd::prelude::*;
use crate::blocks::{balanced_end, law_lists_are_balanced_blocks, lemma_block_end};
use crate::edits::{
    is_gap, is_list_text, law_block_edit_is_tree_edit, law_insertion_adds_an_item,
    law_stretch_is_of_the_node, lemma_cut, lemma_items_end, lemma_list_text_in, lemma_node_end,
    lemma_path_goes_on, lemma_push, lemma_quoted_end, lemma_replace, lemma_skip_space,
    lemma_stretch_inside, lemma_word_end, node_at, stretch_of, with_node,
};
use crate::netlist::has_coded;
use crate::padnet::{
    code_of, digit_follows, in_table, is_bare, is_coded, lemma_bare_word, net_block, new_entry,
    pad_block, pad_net_set, pad_pattern, reference_pattern, rewritten_stretch, PadNetError,
};
use crate::sexp::{
    is_delimiter, is_space, named_items, read_items, read_node, read_sexp, skip_space, word_end,
    Sexp,
};
use crate::text::{
    find, find_in, is_first_match, is_last_match, lemma_find_in, lemma_first_is_found,
    lemma_last_is_found, matches_at, occurs, rfind_in, splice,
};

verus! {

// ─── Patterns around an edit ──────────────────────────────────────────────────

/// Is `t` the text `s` with `s[p..q]` replaced by `u`, where either a list replaces a list
/// or a list goes, behind a space, before a closing parenthesis?
spec fn is_edit(s: Seq<char>, t: Seq<char>, p: int, q: int, u: Seq<char>) -> bool {
    &&& 0 <= p <= q <= s.len()
    &&& p < s.len()
    &&& t == splice(s, p, q, u)
    &&& if p < q {
        s[p] == '(' && u.len() > 0 && u[0] == '('
    } else {
        s[p] == ')' && u.len() > 1 && u[0] == ' ' && u[1] == '('
    }
}

/// Does a pattern hold no parenthesis but for one that it begins with?
spec fn has_one_opening(pat: Seq<char>) -> bool {
    &&& pat.len() > 0
    &&& forall|i: int| 0 < i < pat.len() ==> #[trigger] pat[i] != '(' && pat[i] != ')'
}

proof fn lemma_char(s: Seq<char>, pat: Seq<char>, y: int, i: int)
    requires
        matches_at(s, pat, y),
        0 <= i < pat.len(),
    ensures
        y + i < s.len(),
        s[y + i] == pat[i],
{
    assert(s.subrange(y, y + pat.len())[i] == pat[i]);
}

/// A pattern that begins before an edit is there before and after it, unless its last
/// character is the space that was put in.
proof fn lemma_before(
    s: Seq<char>,
    t: Seq<char>,
    p: int,
    q: int,
    u: Seq<char>,
    pat: Seq<char>,
    y: int,
)
    requires
        is_edit(s, t, p, q, u),
        has_one_opening(pat),
        0 <= y < p,
    ensures
        matches_at(s, pat, y) ==> matches_at(t, pat, y) && y + pat.len() <= p,
        matches_at(t, pat, y) ==> (matches_at(s, pat, y) && y + pat.len() <= p) || (p == q && y
            + pat.len() == p + 1 && pat.last() == ' '),
{
    if y + pat.len() <= p {
        assert(s.subrange(y, y + pat.len()) =~= t.subrange(y, y + pat.len()));
    }
    if matches_at(s, pat, y) && y + pat.len() > p {
        lemma_char(s, pat, y, p - y);
    }
    if matches_at(t, pat, y) && y + pat.len() > p {
        lemma_char(t, pat, y, p - y);
        assert(t[p] == u[0]);
        if p == q && y + pat.len() > p + 1 {
            lemma_char(t, pat, y, p + 1 - y);
            assert(t[p + 1] == u[1]);
        }
    }
}

/// A pattern that begins behind an edit is there before and after it.
proof fn lemma_behind(
    s: Seq<char>,
    t: Seq<char>,
    p: int,
    q: int,
    u: Seq<char>,
    pat: Seq<char>,
    y: int,
)
    requires
        is_edit(s, t, p, q, u),
        q <= y,
    ensures
        matches_at(s, pat, y) <==> matches_at(t, pat, y + u.len() - (q - p)),
{
    let d = u.len() - (q - p);
    if y + pat.len() <= s.len() {
        assert(s.subrange(y, y + pat.len()) =~= t.subrange(y + d, y + d + pat.len()));
    }
}

/// A pattern that lies before an edit is there before and after it.
proof fn lemma_wholly_before(
    s: Seq<char>,
    t: Seq<char>,
    p: int,
    q: int,
    u: Seq<char>,
    pat: Seq<char>,
    y: int,
)
    requires
        is_edit(s, t, p, q, u),
        0 <= y,
        y + pat.len() <= p,
    ensures
        matches_at(s, pat, y) <==> matches_at(t, pat, y),
{
    assert(s.subrange(y, y + pat.len()) =~= t.subrange(y, y + pat.len()));
}

/// Has a text the ends of a net entry: `(net ` and `")`?
spec fn is_entry(x: Seq<char>) -> bool {
    &&& x.len() >= 7
    &&& matches_at(x, "(net "@, 0)
    &&& x[x.len() - 2] == '"'
    &&& x[x.len() - 1] == ')'
}

/// The opening of a footprint does not begin in an entry that does not hold it.
proof fn lemma_footprint_not_in_entry(t: Seq<char>, at: int, x: Seq<char>, y: int)
    requires
        is_entry(x),
        matches_at(t, x, at),
        at <= y < at + x.len(),
        !occurs(x, "(footprint "@),
    ensures
        !matches_at(t, "(footprint "@, y),
{
    let pat = "(footprint "@;
    reveal_strlit("(footprint ");
    if matches_at(t, pat, y) {
        let k = y - at;
        let n = x.len() as int;
        if k + 11 <= n {
            assert forall|i: int| 0 <= i < 11 implies #[trigger] x.subrange(k, k + 11)[i]
                == pat[i] by {
                lemma_char(t, x, at, k + i);
                lemma_char(t, pat, y, i);
            }
            assert(x.subrange(k, k + 11) =~= pat);
            assert(matches_at(x, pat, k));
        } else if k <= n - 2 {
            lemma_char(t, x, at, n - 2);
            lemma_char(t, pat, y, n - 2 - k);
        } else {
            lemma_char(t, x, at, n - 1);
            lemma_char(t, pat, y, 0);
        }
    }
}

/// Between a parenthesis that opens inside of a list and the one that closes the list, a word
/// ends.
proof fn lemma_word_ends_before_close(s: Seq<char>, i: int, y: int)
    requires
        0 <= i <= s.len(),
        read_items(s, i) is Some,
        i <= y,
        y + 1 < (read_items(s, i)->0).1 - 1,
        s[y] == '(',
    ensures
        exists|k: int|
            y < k < (read_items(s, i)->0).1 - 1 && is_delimiter(#[trigger] s[k]),
    decreases s.len() - i,
{
    let end = (read_items(s, i)->0).1;
    lemma_items_end(s, i);
    lemma_skip_space(s, i);
    let j = skip_space(s, i);
    if y < j {
        assert(is_space(s[y]));
    }
    if s[j] == ')' {
        assert(end == j + 1);
        assert(is_space(s[y]));
    } else {
        lemma_node_end(s, j);
        let (n, e) = read_node(s, j)->0;
        lemma_items_end(s, e);
        assert(e <= end - 1);
        if e <= y {
            lemma_word_ends_before_close(s, e, y);
        } else if s[j] == '(' {
            lemma_items_end(s, j + 1);
            assert(s[e - 1] == ')');
            assert(is_delimiter(s[e - 1]));
        } else if s[j] == '"' {
            lemma_quoted_end(s, j + 1);
            assert(s[e - 1] == '"');
            assert(is_delimiter(s[e - 1]));
        } else {
            lemma_in_word(s, j, y);
        }
    }
}

proof fn lemma_in_word(s: Seq<char>, i: int, y: int)
    requires
        0 <= i <= y < word_end(s, i),
        i <= s.len(),
    ensures
        !is_delimiter(s[y]),
    decreases s.len() - i,
{
    lemma_word_end(s, i);
    if i < y {
        lemma_in_word(s, i + 1, y);
    }
}

// ─── The pad is found again ───────────────────────────────────────────────────

/// The block of the footprint that a reference is found in.
pub open spec fn footprint_block(s: Seq<char>, reference: Seq<char>) -> Option<(int, int)> {
    match find(s, reference_pattern(reference)) {
        Some(at) => match rfind_in(s, "(footprint "@, at) {
            Some(open) => match balanced_end(s, open) {
                Some(close) => Some((open, close)),
                None => None,
            },
            None => None,
        },
        None => None,
    }
}

proof fn lemma_patterns(reference: Seq<char>, pad: Seq<char>)
    ensures
        reference_pattern(reference).len() == 24 + reference.len(),
        reference_pattern(reference)[0] == '(',
        reference_pattern(reference)[1] == 'p',
        reference_pattern(reference).subrange(23, 23int + reference.len()) == reference,
        forall|i: int|
            0 < i < 23 ==> #[trigger] reference_pattern(reference)[i] != '(',
        pad_pattern(pad).len() > 5,
        pad_pattern(pad).subrange(0, 5) == "(pad "@,
        "(pad "@ == seq!['(', 'p', 'a', 'd', ' '],
        has_one_opening("(footprint "@),
        "(footprint "@.len() == 11,
        "(footprint "@[0] == '(',
        "(footprint "@[1] == 'f',
        has_one_opening("(net "@),
        "(net "@.len() == 5,
        "(net "@[0] == '(',
        "(net "@[1] == 'n',
{
    reveal_strlit("(property \"Reference\" \"");
    reveal_strlit("\"");
    reveal_strlit("(pad \"");
    reveal_strlit("\" ");
    reveal_strlit("(pad ");
    reveal_strlit("(footprint ");
    reveal_strlit("(net ");
    assert(reference_pattern(reference).subrange(23, 23int + reference.len()) =~= reference);
    assert(pad_pattern(pad).subrange(0, 5) =~= "(pad "@);
    assert("(pad "@ =~= seq!['(', 'p', 'a', 'd', ' ']);
}

/// Where the reference is found after an edit: where it was, if it stands before the edit, and
/// otherwise no farther on, but still behind what it was found behind.
proof fn lemma_reference_again(
    s: Seq<char>,
    t: Seq<char>,
    p: int,
    q: int,
    u: Seq<char>,
    reference: Seq<char>,
    at: int,
    open: int,
) -> (r: int)
    requires
        is_edit(s, t, p, q, u),
        find(s, reference_pattern(reference)) == Some(at),
        0 <= open < p,
        s[open] == '(' && s[open + 1] == 'f',
        at + reference_pattern(reference).len() <= p || q <= at,
        q <= at ==> !occurs(reference, s.subrange(open, p)),
    ensures
        find(t, reference_pattern(reference)) == Some(r),
        matches_at(t, reference_pattern(reference), r),
        at < p ==> r == at,
        q <= at ==> open < r <= at + u.len() - (q - p),
{
    let pat = reference_pattern(reference);
    let d = u.len() - (q - p);
    let n = t.len() as int;
    lemma_patterns(reference, Seq::empty());
    lemma_find_in(s, pat, 0, s.len() as int);
    lemma_find_in(t, pat, 0, n);
    assert forall|y: int| 0 <= y < at && y + pat.len() <= p implies !#[trigger] matches_at(
        t,
        pat,
        y,
    ) by {
        lemma_wholly_before(s, t, p, q, u, pat, y);
        assert(!matches_at(s, pat, y));
    }
    if at < p {
        lemma_wholly_before(s, t, p, q, u, pat, at);
        assert(is_first_match(t, pat, 0, n, at));
        lemma_first_is_found(t, pat, 0, n, at);
        at
    } else {
        lemma_behind(s, t, p, q, u, pat, at);
        let r = find(t, pat)->0;
        if r <= open {
            lemma_char(t, pat, r, 0);
            lemma_char(t, pat, r, 1);
            assert(t[open] == s[open]);
            if r == open {
                if open + 1 < p {
                    assert(t[open + 1] == s[open + 1]);
                } else {
                    assert(t[p] == u[0]);
                }
            } else {
                lemma_held(s, t, p, q, u, reference, r, open);
            }
        }
        r
    }
}

/// A reference whose pattern reaches from before `open` to behind `p` holds all that stands
/// between.
proof fn lemma_held(
    s: Seq<char>,
    t: Seq<char>,
    p: int,
    q: int,
    u: Seq<char>,
    reference: Seq<char>,
    y: int,
    open: int,
)
    requires
        is_edit(s, t, p, q, u),
        0 <= y < open < p,
        s[open] == '(',
        matches_at(t, reference_pattern(reference), y),
        y + reference_pattern(reference).len() > p,
    ensures
        occurs(reference, s.subrange(open, p)),
{
    let pat = reference_pattern(reference);
    lemma_patterns(reference, Seq::empty());
    lemma_char(t, pat, y, open - y);
    assert(t[open] == s[open]);
    let k = open - y - 23;
    let part = s.subrange(open, p);
    assert forall|i: int| 0 <= i < part.len() implies #[trigger] reference.subrange(
        k,
        k + part.len(),
    )[i] == part[i] by {
        lemma_char(t, pat, y, open - y + i);
        assert(t[open + i] == s[open + i]);
        assert(pat.subrange(23, 23int + reference.len())[k + i] == pat[23 + k + i]);
    }
    assert(reference.subrange(k, k + part.len()) =~= part);
    assert(matches_at(reference, part, k));
}

/// Where the footprint of the reference is found after such an edit.
proof fn lemma_footprint_again(
    s: Seq<char>,
    t: Seq<char>,
    p: int,
    q: int,
    u: Seq<char>,
    x: Seq<char>,
    reference: Seq<char>,
    start: int,
    at: int,
    open: int,
    r: int,
)
    requires
        is_edit(s, t, p, q, u),
        u == (if p < q {
            x
        } else {
            " "@ + x
        }),
        is_entry(x),
        rfind_in(s, "(footprint "@, at) == Some(open),
        0 <= at <= s.len(),
        open <= start < p,
        s[start] == '(' && s[start + 1] == 'p',
        p == q ==> (read_node(s, start) matches Some((_, end)) && end == p + 1),
        matches_at(t, reference_pattern(reference), r),
        (at < p && r == at) || (q <= at && open < r <= at + u.len() - (q - p) && !occurs(
            x,
            "(footprint "@,
        )),
    ensures
        rfind_in(t, "(footprint "@, r) == Some(open),
{
    let pat = "(footprint "@;
    let d = u.len() - (q - p);
    lemma_patterns(reference, Seq::empty());
    lemma_last(s, pat, at, open);
    lemma_before(s, t, p, q, u, pat, open);
    if open < r < open + 11 {
        lemma_char(t, reference_pattern(reference), r, 0);
        lemma_char(t, pat, open, r - open);
    }
    let gap = u.len() - x.len();
    reveal_strlit(" ");
    assert(t.subrange(p + gap, p + gap + x.len()) =~= x);
    assert(matches_at(t, x, p + gap));
    assert forall|y: int| open < y <= r - pat.len() implies !#[trigger] matches_at(t, pat, y) by {
        if y < p {
            lemma_before(s, t, p, q, u, pat, y);
            if matches_at(s, pat, y) {
                assert(y > at - pat.len());
            } else if matches_at(t, pat, y) {
                lemma_no_opened_word(s, t, p, u, start, pat, y);
            }
        } else if y < p + gap {
            assert(t[y] == ' ');
            if matches_at(t, pat, y) {
                lemma_char(t, pat, y, 0);
            }
        } else if y < p + u.len() {
            lemma_footprint_not_in_entry(t, p + gap, x, y);
        } else {
            lemma_behind(s, t, p, q, u, pat, y - d);
            assert(!matches_at(s, pat, y - d));
        }
    }
    assert(is_last_match(t, pat, r, open));
    lemma_last_is_found(t, pat, r, open);
}

proof fn lemma_last(s: Seq<char>, pat: Seq<char>, to: int, i: int)
    requires
        rfind_in(s, pat, to) == Some(i),
    ensures
        is_last_match(s, pat, to, i),
{
    let c = choose|c: int| is_last_match(s, pat, to, c);
    assert(is_last_match(s, pat, to, c));
}

/// A parenthesis and a word do not stand right before the place where an entry is put
/// into a pad.
proof fn lemma_no_opened_word(
    s: Seq<char>,
    t: Seq<char>,
    p: int,
    u: Seq<char>,
    start: int,
    pat: Seq<char>,
    y: int,
)
    requires
        is_edit(s, t, p, p, u),
        0 <= start < p,
        s[start] == '(' && s[start + 1] == 'p',
        read_node(s, start) matches Some((_, end)) && end == p + 1,
        pat == "(footprint "@ || pat == "(net "@,
        0 <= y,
        y + pat.len() == p + 1,
    ensures
        !matches_at(t, pat, y),
{
    lemma_patterns(Seq::empty(), Seq::empty());
    reveal_strlit("(footprint ");
    reveal_strlit("(net ");
    if matches_at(t, pat, y) {
        assert forall|k: int| y <= k < p implies s[k] == #[trigger] pat[k - y] by {
            lemma_char(t, pat, y, k - y);
            assert(t[k] == s[k]);
        }
        assert(s[y] == pat[0]);
        assert(s[y + 1] == pat[1]);
        assert forall|k: int| y < k < p implies !is_delimiter(#[trigger] s[k]) by {
            assert(s[k] == pat[k - y]);
        }
        assert(skip_space(s, start) == start);
        if y > start {
            lemma_word_ends_before_close(s, start + 1, y);
        } else if y < start {
            assert(!is_delimiter(s[start]));
        }
    }
}

/// Where the pad is found after such an edit.
proof fn lemma_pad_again(
    s: Seq<char>,
    t: Seq<char>,
    p: int,
    q: int,
    u: Seq<char>,
    pad: Seq<char>,
    open: int,
    close: int,
    start: int,
)
    requires
        is_edit(s, t, p, q, u),
        0 <= open,
        find_in(s, pad_pattern(pad), open, close) == Some(start),
        q <= close <= s.len(),
        start + pad_pattern(pad).len() <= p,
    ensures
        find_in(t, pad_pattern(pad), open, close + u.len() - (q - p)) == Some(start),
{
    let pat = pad_pattern(pad);
    let to = close + u.len() - (q - p);
    lemma_find_in(s, pat, open, close);
    lemma_wholly_before(s, t, p, q, u, pat, start);
    assert forall|y: int| open <= y < start implies !#[trigger] matches_at(t, pat, y) by {
        lemma_wholly_before(s, t, p, q, u, pat, y);
        assert(!matches_at(s, pat, y));
    }
    assert(is_first_match(t, pat, open, to, start));
    lemma_first_is_found(t, pat, open, to, start);
}

// ─── The net table stays ──────────────────────────────────────────────────────

/// Have two lists the same texts in the same positions, and equally many items?
spec fn same_texts(a: Sexp, b: Sexp) -> bool {
    &&& a.items().len() == b.items().len()
    &&& forall|m: int| #[trigger] a.item_text(m) == b.item_text(m)
}

/// Are two lists of nets the same, as far as texts go?
spec fn same_tables(a: Seq<Sexp>, b: Seq<Sexp>) -> bool {
    &&& a.len() == b.len()
    &&& forall|i: int| 0 <= i < a.len() ==> same_texts(#[trigger] a[i], b[i])
}

/// A list inside of another is replaced by a list: the texts of the other stay.
proof fn lemma_texts_stay(n: Sexp, path: Seq<nat>, new: Sexp)
    requires
        path.len() > 0,
        node_at(n, path) matches Some(Sexp::List(_)),
        new is List,
    ensures
        n is List,
        with_node(n, path, new) is List,
        same_texts(n, with_node(n, path, new)),
    decreases path.len(),
{
    let k = path[0] as int;
    let item = n.items()[k];
    let after = with_node(n, path, new);
    assert(n.item(k) == Some(item));
    if path.len() == 1 {
        assert(path.skip(1).len() == 0);
        assert(node_at(item, path.skip(1)) == Some(item));
        assert(with_node(item, path.skip(1), new) == new);
    } else {
        lemma_texts_stay(item, path.skip(1), new);
    }
    let changed = with_node(item, path.skip(1), new);
    assert(after.items() == n.items().update(k, changed));
    assert forall|m: int| #[trigger] n.item_text(m) == after.item_text(m) by {
        if 0 <= m < n.items().len() && m != k {
            assert(after.items()[m] == n.items()[m]);
        }
    }
}

proof fn lemma_named_stay(items: Seq<Sexp>, k: int, new: Sexp, name: Seq<char>)
    requires
        0 <= k < items.len(),
        same_texts(items[k], new),
    ensures
        same_tables(named_items(items, name), named_items(items.update(k, new), name)),
    decreases items.len(),
{
    let after = items.update(k, new);
    let n = items.len() - 1;
    let before_named = named_items(items.drop_last(), name);
    assert(items[k].item_text(0) == new.item_text(0));
    if k == n {
        assert(after.drop_last() =~= items.drop_last());
        assert(after.last() == new);
    } else {
        assert(after.drop_last() =~= items.drop_last().update(k, new));
        assert(after.last() == items.last());
        assert(items.drop_last()[k] == items[k]);
        lemma_named_stay(items.drop_last(), k, new, name);
    }
}

proof fn lemma_same_tables(a: Seq<Sexp>, b: Seq<Sexp>, name: Seq<char>)
    requires
        same_tables(a, b),
    ensures
        has_coded(a) == has_coded(b),
        in_table(a, name) == in_table(b, name),
        code_of(a, name) == code_of(b, name),
    decreases a.len(),
{
    if has_coded(a) {
        let i = choose|i: int| 0 <= i < a.len() && (#[trigger] a[i]).item(2) is Some;
        assert(same_texts(a[i], b[i]));
        assert(b[i].item(2) is Some);
    }
    if has_coded(b) {
        let i = choose|i: int| 0 <= i < b.len() && (#[trigger] b[i]).item(2) is Some;
        assert(same_texts(a[i], b[i]));
        assert(a[i].item(2) is Some);
    }
    if in_table(a, name) {
        let i = choose|i: int| 0 <= i < a.len() && (#[trigger] a[i]).item_text(2) == Some(name);
        assert(same_texts(a[i], b[i]));
        assert(a[i].item_text(2) == b[i].item_text(2));
    }
    if in_table(b, name) {
        let i = choose|i: int| 0 <= i < b.len() && (#[trigger] b[i]).item_text(2) == Some(name);
        assert(same_texts(a[i], b[i]));
        assert(a[i].item_text(2) == b[i].item_text(2));
    }
    if a.len() > 0 {
        let n = a.len() - 1;
        assert(same_texts(a[n], b[n]));
        assert(a[n].item_text(2) == b[n].item_text(2));
        assert(a[n].item_text(1) == b[n].item_text(1));
        assert forall|i: int| 0 <= i < n implies same_texts(
            #[trigger] a.drop_last()[i],
            b.drop_last()[i],
        ) by {
            assert(same_texts(a[i], b[i]));
        }
        lemma_same_tables(a.drop_last(), b.drop_last(), name);
    }
}

/// An item that is none of those called `name` is replaced by another such: those stay.
proof fn lemma_unnamed_stay(items: Seq<Sexp>, k: int, new: Sexp, name: Seq<char>)
    requires
        0 <= k < items.len(),
        !items[k].is_named(name),
        !new.is_named(name),
    ensures
        named_items(items.update(k, new), name) == named_items(items, name),
    decreases items.len(),
{
    let after = items.update(k, new);
    if k == items.len() - 1 {
        assert(after.drop_last() =~= items.drop_last());
    } else {
        assert(after.drop_last() =~= items.drop_last().update(k, new));
        assert(items.drop_last()[k] == items[k]);
        lemma_unnamed_stay(items.drop_last(), k, new, name);
    }
}

/// A list inside of an item of a board is replaced by a list: the net table stays.
proof fn lemma_table_stays(tree: Sexp, path: Seq<nat>, new: Sexp, name: Seq<char>)
    requires
        path.len() > 1,
        node_at(tree, path) matches Some(Sexp::List(_)),
        new is List,
    ensures
        ({
            let before = tree.find_all("net"@);
            let after = with_node(tree, path, new).find_all("net"@);
            has_coded(after) == has_coded(before) && code_of(after, name) == code_of(before, name)
        }),
{
    let k = path[0] as int;
    let item = tree.items()[k];
    assert(tree.item(k) == Some(item));
    lemma_texts_stay(item, path.skip(1), new);
    let changed = with_node(item, path.skip(1), new);
    assert(with_node(tree, path, new).items() == tree.items().update(k, changed));
    lemma_named_stay(tree.items(), k, changed, "net"@);
    lemma_same_tables(
        tree.find_all("net"@),
        with_node(tree, path, new).find_all("net"@),
        name,
    );
}

// ─── Setting it again ─────────────────────────────────────────────────────────

/// A net entry has the ends of one, and one without a code does not seem to have one.
proof fn lemma_entry(coded: bool, code: Option<Seq<char>>, name: Seq<char>)
    requires
        new_entry(coded, code, name) is Ok,
    ensures
        is_entry(new_entry(coded, code, name)->Ok_0),
        new_entry(coded, code, name)->Ok_0[0] == '(',
        !coded ==> !is_coded(new_entry(coded, code, name)->Ok_0),
{
    reveal_strlit("(net ");
    reveal_strlit("(net \"");
    reveal_strlit(" \"");
    reveal_strlit("\")");
    let x = new_entry(coded, code, name)->Ok_0;
    assert(x.subrange(0, 5) =~= "(net "@);
    assert(x[0] == "(net "@[0]);
    if !coded {
        assert(x[4] == ' ');
        assert(x[5] == '"');
        assert(is_coded(x) == digit_follows(x, 5));
    }
}

/// The block of the pad is found again after an edit inside of it.
proof fn lemma_pad_block_again(
    s: Seq<char>,
    t: Seq<char>,
    p: int,
    q: int,
    u: Seq<char>,
    x: Seq<char>,
    reference: Seq<char>,
    pad: Seq<char>,
)
    requires
        is_edit(s, t, p, q, u),
        u == (if p < q {
            x
        } else {
            " "@ + x
        }),
        is_entry(x),
        pad_block(s, reference, pad) is Ok,
        ({
            let at = find(s, reference_pattern(reference))->0;
            let (open, close) = footprint_block(s, reference)->0;
            let (start, end) = pad_block(s, reference, pad)->Ok_0;
            let d = u.len() - (q - p);
            &&& at + reference_pattern(reference).len() <= p || q <= at
            &&& q <= at ==> !occurs(x, "(footprint "@) && !occurs(reference, s.subrange(open, p))
            &&& start + pad_pattern(pad).len() <= p
            &&& q <= close
            &&& p == q ==> (read_node(s, start) matches Some((_, e)) && e == p + 1)
            &&& read_node(t, open) matches Some((_, e)) && e == close + d
            &&& read_node(t, start) matches Some((_, e)) && e == end + d
        }),
    ensures
        ({
            let (start, end) = pad_block(s, reference, pad)->Ok_0;
            pad_block(t, reference, pad) == Ok::<(int, int), PadNetError>(
                (start, end + u.len() - (q - p)),
            )
        }),
{
    let at = find(s, reference_pattern(reference))->0;
    let (open, close) = footprint_block(s, reference)->0;
    let (start, end) = pad_block(s, reference, pad)->Ok_0;
    lemma_patterns(reference, pad);
    lemma_find_in(s, reference_pattern(reference), 0, s.len() as int);
    lemma_last(s, "(footprint "@, at, open);
    lemma_char(s, "(footprint "@, open, 0);
    lemma_char(s, "(footprint "@, open, 1);
    lemma_block_end(s, open + 1, 1, false);
    lemma_find_in(s, pad_pattern(pad), open, close);
    lemma_pad_opening(s, pad, start);
    let r = lemma_reference_again(s, t, p, q, u, reference, at, open);
    lemma_footprint_again(s, t, p, q, u, x, reference, start, at, open, r);
    lemma_pad_again(s, t, p, q, u, pad, open, close, start);
    assert(t[open] == s[open]);
    assert(t[start] == s[start]);
    law_lists_are_balanced_blocks(t, open);
    law_lists_are_balanced_blocks(t, start);
}

proof fn lemma_pad_opening(s: Seq<char>, pad: Seq<char>, start: int)
    requires
        matches_at(s, pad_pattern(pad), start),
    ensures
        start + 5 < s.len(),
        s.subrange(start, start + 5) == seq!['(', 'p', 'a', 'd', ' '],
        s[start] == '(' && s[start + 1] == 'p',
{
    let pat = pad_pattern(pad);
    lemma_patterns(Seq::empty(), pad);
    assert forall|i: int| 0 <= i < 5 implies #[trigger] s.subrange(start, start + 5)[i]
        == "(pad "@[i] by {
        lemma_char(s, pat, start, i);
        assert(pat.subrange(0, 5)[i] == pat[i]);
    }
    assert(s.subrange(start, start + 5) =~= "(pad "@);
    assert(s[start] == s.subrange(start, start + 5)[0]);
    assert(s[start + 1] == s.subrange(start, start + 5)[1]);
}

/// Is the entry that is written one with a code?
pub open spec fn writes_code(s: Seq<char>, reference: Seq<char>, pad: Seq<char>) -> bool {
    match pad_block(s, reference, pad) {
        Ok((start, end)) => match net_block(s, start, end) {
            Ok(Some((from, to))) => is_coded(s.subrange(from, to)),
            _ => has_coded(read_sexp(s)->0.find_all("net"@)),
        },
        Err(_) => false,
    }
}

/// The entry that is written.
pub open spec fn written_entry(
    s: Seq<char>,
    reference: Seq<char>,
    pad: Seq<char>,
    name: Seq<char>,
) -> Seq<char> {
    new_entry(
        writes_code(s, reference, pad),
        code_of(read_sexp(s)->0.find_all("net"@), name),
        name,
    )->Ok_0
}

/// Is a text one list and nothing else?
pub open spec fn is_one_list(x: Seq<char>) -> bool {
    read_node(x, 0) matches Some((Sexp::List(_), end)) && end == x.len()
}

/// Do the footprint, the pad and its net entry stand in each other as expressions of the
/// board, as `fp_path`, `pad_path` and `net_path` lead to them?
pub open spec fn is_laid_out(
    s: Seq<char>,
    reference: Seq<char>,
    pad: Seq<char>,
    fp_path: Seq<nat>,
    pad_path: Seq<nat>,
    net_path: Seq<nat>,
) -> bool {
    &&& footprint_block(s, reference) matches Some((open, _)) && stretch_of(s, 0, fp_path)
        == footprint_block(s, reference) && (pad_block(s, reference, pad) matches Ok((start, end))
        && stretch_of(s, open, pad_path) == Some((start, end)) && (net_block(
        s,
        start,
        end,
    ) matches Ok(Some(_)) ==> stretch_of(s, start, net_path) == Some(
        rewritten_stretch(s, reference, pad),
    )))
}

/// Do the reference and the number of the pad stand outside of what is rewritten, as they
/// are looked for?
pub open spec fn stand_outside(s: Seq<char>, reference: Seq<char>, pad: Seq<char>) -> bool {
    let at = find(s, reference_pattern(reference))->0;
    let (start, _) = pad_block(s, reference, pad)->Ok_0;
    let (from, to) = rewritten_stretch(s, reference, pad);
    &&& at + reference_pattern(reference).len() <= from || to <= at
    &&& start + pad_pattern(pad).len() <= from
}

/// Where the reference stands behind the pad, the footprint is looked for over what was
/// written. Is that not led astray: is there no opening of a footprint in the entry, and does
/// the reference not hold the footprint itself as far as the entry?
pub open spec fn is_not_led_astray(
    s: Seq<char>,
    reference: Seq<char>,
    pad: Seq<char>,
    entry: Seq<char>,
) -> bool {
    let at = find(s, reference_pattern(reference))->0;
    let (open, _) = footprint_block(s, reference)->0;
    let (from, to) = rewritten_stretch(s, reference, pad);
    to <= at ==> !occurs(entry, "(footprint "@) && !occurs(reference, s.subrange(open, from))
}

/// The entry that was written is the first one of the pad.
proof fn lemma_entry_again(
    s: Seq<char>,
    t: Seq<char>,
    p: int,
    q: int,
    u: Seq<char>,
    x: Seq<char>,
    node: Sexp,
    start: int,
    n: int,
)
    requires
        is_edit(s, t, p, q, u),
        u == (if p < q {
            x
        } else {
            " "@ + x
        }),
        is_list_text(x, node),
        matches_at(x, "(net "@, 0),
        0 <= start < p,
        s[start] == '(' && s[start + 1] == 'p',
        p == q ==> (read_node(s, start) matches Some((_, e)) && e == p + 1),
        forall|y: int|
            start <= y < p && y + 5 <= p ==> !#[trigger] matches_at(s, "(net "@, y),
        p + u.len() <= n,
    ensures
        ({
            let at = p + u.len() - x.len();
            &&& net_block(t, start, n) == Ok::<Option<(int, int)>, PadNetError>(
                Some((at, at + x.len())),
            )
            &&& t.subrange(at, at + x.len()) == x
        }),
{
    let at = p + u.len() - x.len();
    let pat = "(net "@;
    reveal_strlit(" ");
    lemma_patterns(Seq::empty(), Seq::empty());
    assert(t.subrange(at, at + x.len()) =~= x);
    assert(t.subrange(at, at + 5) =~= x.subrange(0, 5));
    assert(matches_at(t, pat, at));
    assert forall|y: int| start <= y < at implies !#[trigger] matches_at(t, pat, y) by {
        if y < p {
            lemma_before(s, t, p, q, u, pat, y);
            if matches_at(t, pat, y) && y + 5 == p + 1 && p == q {
                lemma_no_opened_word(s, t, p, u, start, pat, y);
            }
        } else if matches_at(t, pat, y) {
            assert(t[y] == ' ');
            lemma_char(t, pat, y, 0);
        }
    }
    assert(is_first_match(t, pat, start, n, at));
    lemma_first_is_found(t, pat, start, n, at);
    lemma_list_text_in(x, node, t, at);
    assert(t[at] == x[0]);
    law_lists_are_balanced_blocks(t, at);
}

/// What is known of the blocks of a board that is laid out.
proof fn lemma_layout(
    s: Seq<char>,
    reference: Seq<char>,
    pad: Seq<char>,
    fp_path: Seq<nat>,
    pad_path: Seq<nat>,
    net_path: Seq<nat>,
)
    requires
        is_laid_out(s, reference, pad, fp_path, pad_path, net_path),
        read_sexp(s) is Some,
    ensures
        ({
            let (open, close) = footprint_block(s, reference)->0;
            let (start, end) = pad_block(s, reference, pad)->Ok_0;
            &&& 0 <= open < start < end <= close <= s.len()
            &&& s[start] == '(' && s[start + 1] == 'p'
            &&& s[end - 1] == ')'
            &&& read_node(s, open) matches Some((_, e)) && e == close
            &&& read_node(s, start) matches Some((Sexp::List(_), e)) && e == end
            &&& start + 5 < s.len()
            &&& s.subrange(start, start + 5) == seq!['(', 'p', 'a', 'd', ' ']
            &&& pad_path.len() > 0
        }),
{
    let (open, close) = footprint_block(s, reference)->0;
    let (start, end) = pad_block(s, reference, pad)->Ok_0;
    let at = find(s, reference_pattern(reference))->0;
    lemma_patterns(reference, pad);
    law_stretch_is_of_the_node(s, 0, fp_path);
    law_stretch_is_of_the_node(s, open, pad_path);
    lemma_stretch_inside(s, open, pad_path);
    lemma_last(s, "(footprint "@, at, open);
    lemma_char(s, "(footprint "@, open, 0);
    lemma_char(s, "(footprint "@, open, 1);
    lemma_find_in(s, pad_pattern(pad), open, close);
    lemma_pad_opening(s, pad, start);
    assert(skip_space(s, open) == open);
    assert(skip_space(s, start) == start);
    lemma_items_end(s, start + 1);
}

/// A list that opens with `(pad ` is called `pad`.
proof fn lemma_pad_is_named(s: Seq<char>, start: int)
    requires
        0 <= start,
        start + 5 < s.len(),
        s.subrange(start, start + 5) == seq!['(', 'p', 'a', 'd', ' '],
        read_node(s, start) matches Some((Sexp::List(_), _)),
    ensures
        (read_node(s, start)->0).0.is_named("pad"@),
{
    let text = s.subrange(start, start + 5);
    assert(s[start] == text[0] && s[start + 1] == text[1] && s[start + 2] == text[2]);
    assert(s[start + 3] == text[3] && s[start + 4] == text[4]);
    reveal_strlit("pad");
    let word = s.subrange(start + 1, start + 4);
    assert(word =~= "pad"@);
    assert(is_bare(word));
    lemma_bare_word(s, start + 1, start + 4);
    assert(skip_space(s, start) == start);
    assert(skip_space(s, start + 1) == start + 1);
    assert(read_node(s, start + 1) == Some((Sexp::Atom("pad"@), start + 4)));
    let items = (read_node(s, start)->0).0.items();
    let (rest, end) = read_items(s, start + 4)->0;
    assert(items == seq![Sexp::Atom("pad"@)] + rest);
    assert(items[0] == Sexp::Atom("pad"@));
}

proof fn lemma_rewriting_twice(
    s: Seq<char>,
    reference: Seq<char>,
    pad: Seq<char>,
    x: Seq<char>,
    node: Sexp,
    fp_path: Seq<nat>,
    pad_path: Seq<nat>,
    net_path: Seq<nat>,
    from: int,
    to: int,
)
    requires
        read_sexp(s) is Some,
        is_laid_out(s, reference, pad, fp_path, pad_path, net_path),
        stand_outside(s, reference, pad),
        is_not_led_astray(s, reference, pad, x),
        ({
            let (start, end) = pad_block(s, reference, pad)->Ok_0;
            net_block(s, start, end) == Ok::<Option<(int, int)>, PadNetError>(Some((from, to)))
        }),
        is_entry(x),
        is_list_text(x, node),
    ensures
        ({
            let t = splice(s, from, to, x);
            let (start, end) = pad_block(s, reference, pad)->Ok_0;
            let n = end + x.len() - (to - from);
            &&& pad_block(t, reference, pad) == Ok::<(int, int), PadNetError>((start, n))
            &&& net_block(t, start, n) == Ok::<Option<(int, int)>, PadNetError>(
                Some((from, from + x.len())),
            )
            &&& t.subrange(from, from + x.len()) == x
        }),
{
    let t = splice(s, from, to, x);
    let (open, close) = footprint_block(s, reference)->0;
    let (start, end) = pad_block(s, reference, pad)->Ok_0;
    lemma_layout(s, reference, pad, fp_path, pad_path, net_path);
    lemma_patterns(reference, pad);
    lemma_stretch_inside(s, start, net_path);
    lemma_find_in(s, "(net "@, start, end);
    lemma_char(s, "(net "@, from, 0);
    assert(is_edit(s, t, from, to, x));
    lemma_replace(s, start, net_path, x, node);
    lemma_path_goes_on(s, open, pad_path, net_path);
    lemma_replace(s, open, pad_path + net_path, x, node);
    lemma_pad_block_again(s, t, from, to, x, x, reference, pad);
    lemma_entry_again(s, t, from, to, x, x, node, start, end + x.len() - (to - from));
}

proof fn lemma_rewritten_table(
    s: Seq<char>,
    reference: Seq<char>,
    pad: Seq<char>,
    name: Seq<char>,
    x: Seq<char>,
    node: Sexp,
    fp_path: Seq<nat>,
    pad_path: Seq<nat>,
    net_path: Seq<nat>,
    from: int,
    to: int,
)
    requires
        read_sexp(s) is Some,
        is_laid_out(s, reference, pad, fp_path, pad_path, net_path),
        ({
            let (start, end) = pad_block(s, reference, pad)->Ok_0;
            net_block(s, start, end) == Ok::<Option<(int, int)>, PadNetError>(Some((from, to)))
        }),
        is_list_text(x, node),
    ensures
        ({
            let t = splice(s, from, to, x);
            let before = read_sexp(s)->0.find_all("net"@);
            let after = read_sexp(t)->0.find_all("net"@);
            &&& read_sexp(t) is Some
            &&& has_coded(after) == has_coded(before)
            &&& code_of(after, name) == code_of(before, name)
        }),
{
    let (open, close) = footprint_block(s, reference)->0;
    let (start, end) = pad_block(s, reference, pad)->Ok_0;
    let path = fp_path + (pad_path + net_path);
    lemma_layout(s, reference, pad, fp_path, pad_path, net_path);
    lemma_path_goes_on(s, open, pad_path, net_path);
    lemma_path_goes_on(s, 0, fp_path, pad_path + net_path);
    law_stretch_is_of_the_node(s, 0, path);
    lemma_patterns(reference, pad);
    lemma_find_in(s, "(net "@, start, end);
    lemma_char(s, "(net "@, from, 0);
    lemma_char(s, "(net "@, from, 1);
    assert(skip_space(s, from) == from);
    assert(skip_space(s, start) == start);
    assert(net_path.len() > 0);
    assert(skip_space(x, 0) == 0);
    law_block_edit_is_tree_edit(s, path, x, node);
    lemma_table_stays(read_sexp(s)->0, path, node, name);
}

proof fn lemma_inserting_twice(
    s: Seq<char>,
    reference: Seq<char>,
    pad: Seq<char>,
    x: Seq<char>,
    node: Sexp,
    fp_path: Seq<nat>,
    pad_path: Seq<nat>,
    net_path: Seq<nat>,
)
    requires
        read_sexp(s) is Some,
        is_laid_out(s, reference, pad, fp_path, pad_path, net_path),
        stand_outside(s, reference, pad),
        is_not_led_astray(s, reference, pad, x),
        ({
            let (start, end) = pad_block(s, reference, pad)->Ok_0;
            net_block(s, start, end) == Ok::<Option<(int, int)>, PadNetError>(None)
        }),
        is_entry(x),
        is_list_text(x, node),
    ensures
        ({
            let (start, end) = pad_block(s, reference, pad)->Ok_0;
            let t = splice(s, end - 1, end - 1, " "@ + x);
            let n = end + 1 + x.len();
            &&& pad_block(t, reference, pad) == Ok::<(int, int), PadNetError>((start, n))
            &&& net_block(t, start, n) == Ok::<Option<(int, int)>, PadNetError>(
                Some((end, end + x.len())),
            )
            &&& t.subrange(end, end + x.len()) == x
        }),
{
    let (open, close) = footprint_block(s, reference)->0;
    let (start, end) = pad_block(s, reference, pad)->Ok_0;
    let u = " "@ + x;
    let t = splice(s, end - 1, end - 1, u);
    reveal_strlit(" ");
    lemma_layout(s, reference, pad, fp_path, pad_path, net_path);
    lemma_read_with_entry(s, x, node, open, start, end, pad_path);
    assert(u[0] == ' ');
    assert(u[1] == x[0]);
    assert(is_edit(s, t, end - 1, end - 1, u));
    lemma_pad_block_again(s, t, end - 1, end - 1, u, x, reference, pad);
    lemma_find_in(s, "(net "@, start, end);
    lemma_patterns(reference, pad);
    lemma_entry_again(s, t, end - 1, end - 1, u, x, node, start, end + 1 + x.len());
}

/// The list that ends at `end`, and one around it, are read with an entry put in at the end
/// of the first.
proof fn lemma_read_with_entry(
    s: Seq<char>,
    x: Seq<char>,
    node: Sexp,
    open: int,
    start: int,
    end: int,
    path: Seq<nat>,
)
    requires
        is_list_text(x, node),
        0 <= open <= start < end <= s.len(),
        s[start] == '(',
        s[end - 1] == ')',
        read_node(s, open) is Some,
        stretch_of(s, open, path) == Some((start, end)),
        read_node(s, start) matches Some((Sexp::List(_), e)) && e == end,
    ensures
        ({
            let t = splice(s, end - 1, end - 1, " "@ + x);
            let close = (read_node(s, open)->0).1;
            &&& read_node(t, open) matches Some((_, e)) && e == close + 1 + x.len()
            &&& read_node(t, start) matches Some((_, e)) && e == end + 1 + x.len()
        }),
{
    let items = (read_node(s, start)->0).0.items();
    let new = Sexp::List(items.push(node));
    let b = s.subrange(start, end);
    let pushed = b.drop_last() + " "@ + x + seq![')'];
    reveal_strlit(" ");
    assert(is_gap(" "@));
    lemma_cut(s, start);
    lemma_push(b, items, " "@, x, node);
    assert(splice(s, end - 1, end - 1, " "@ + x) =~= splice(s, start, end, pushed));
    assert(skip_space(s, start) == start);
    let here = Seq::<nat>::empty();
    assert(stretch_of(s, start, here) == Some((start, end)));
    lemma_replace(s, start, here, pushed, new);
    lemma_replace(s, open, path, pushed, new);
}

proof fn lemma_inserted_table(
    s: Seq<char>,
    reference: Seq<char>,
    pad: Seq<char>,
    name: Seq<char>,
    x: Seq<char>,
    node: Sexp,
    fp_path: Seq<nat>,
    pad_path: Seq<nat>,
    net_path: Seq<nat>,
)
    requires
        read_sexp(s) is Some,
        is_laid_out(s, reference, pad, fp_path, pad_path, net_path),
        is_list_text(x, node),
    ensures
        ({
            let (start, end) = pad_block(s, reference, pad)->Ok_0;
            let t = splice(s, end - 1, end - 1, " "@ + x);
            let before = read_sexp(s)->0.find_all("net"@);
            let after = read_sexp(t)->0.find_all("net"@);
            &&& read_sexp(t) is Some
            &&& has_coded(after) == has_coded(before)
            &&& code_of(after, name) == code_of(before, name)
        }),
{
    let (start, end) = pad_block(s, reference, pad)->Ok_0;
    let tree = read_sexp(s)->0;
    let items = (read_node(s, start)->0).0.items();
    let new = Sexp::List(items.push(node));
    let path = fp_path + pad_path;
    reveal_strlit(" ");
    assert(is_gap(" "@));
    lemma_layout(s, reference, pad, fp_path, pad_path, net_path);
    lemma_path_goes_on(s, 0, fp_path, pad_path);
    law_stretch_is_of_the_node(s, 0, path);
    law_insertion_adds_an_item(s, path, " "@, x, node);
    if path.len() > 1 {
        lemma_table_stays(tree, path, new, name);
    } else {
        let k = path[0] as int;
        lemma_pad_is_named(s, start);
        reveal_strlit("pad");
        reveal_strlit("net");
        assert("pad"@[0] == 'p' && "net"@[0] == 'n');
        let item = tree.items()[k];
        assert(path.skip(1).len() == 0);
        assert(node_at(item, path.skip(1)) == Some(item));
        assert(with_node(item, path.skip(1), new) == new);
        assert(tree.item(k) == Some(Sexp::List(items)));
        assert(items.push(node)[0] == items[0]);
        lemma_unnamed_stay(tree.items(), k, new, "net"@);
        assert(with_node(tree, path, new).items() =~= tree.items().update(k, new));
    }
}

/// Setting the net of a pad to what it was just set to changes nothing: the pad is found
/// again, and is on the net already. That goes for a board in which the footprint, the pad
/// and its net entry are expressions, one inside of the other, for an entry that reads as one
/// list and keeps its format, and where what the pad is found by is neither rewritten nor
/// taken for something else.
pub proof fn law_setting_twice(
    s: Seq<char>,
    reference: Seq<char>,
    pad: Seq<char>,
    name: Seq<char>,
    fp_path: Seq<nat>,
    pad_path: Seq<nat>,
    net_path: Seq<nat>,
)
    requires
        pad_net_set(s, reference, pad, name) matches Ok(Some(_)),
        is_laid_out(s, reference, pad, fp_path, pad_path, net_path),
        is_one_list(written_entry(s, reference, pad, name)),
        writes_code(s, reference, pad) ==> is_coded(written_entry(s, reference, pad, name)),
        stand_outside(s, reference, pad),
        is_not_led_astray(s, reference, pad, written_entry(s, reference, pad, name)),
    ensures
        pad_net_set(
            pad_net_set(s, reference, pad, name)->Ok_0->0.content,
            reference,
            pad,
            name,
        ) matches Ok(None),
{
    let coded = writes_code(s, reference, pad);
    let code = code_of(read_sexp(s)->0.find_all("net"@), name);
    let x = written_entry(s, reference, pad, name);
    let (start, end) = pad_block(s, reference, pad)->Ok_0;
    lemma_entry(coded, code, name);
    let node = (read_node(x, 0)->0).0;
    match net_block(s, start, end) {
        Ok(Some((from, to))) => {
            lemma_rewriting_twice(
                s,
                reference,
                pad,
                x,
                node,
                fp_path,
                pad_path,
                net_path,
                from,
                to,
            );
            lemma_rewritten_table(
                s,
                reference,
                pad,
                name,
                x,
                node,
                fp_path,
                pad_path,
                net_path,
                from,
                to,
            );
        },
        _ => {
            lemma_inserting_twice(s, reference, pad, x, node, fp_path, pad_path, net_path);
            lemma_inserted_table(s, reference, pad, name, x, node, fp_path, pad_path, net_path);
        },
    }
}

} // verus!
