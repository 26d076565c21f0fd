//! How the nets of a board file are numbered, and what assigning one to a netclass does.
use vstd::prelude::*;
use crate::board_edit::{
    class_pattern, declared_id, is_balanced, kept_in_project, last_place, lemma_balanced,
    lemma_number_is_bare, member_text, name_pattern, net_added, net_assigned, net_id,
    net_id_readable, net_line, netclass_place, next_net_id, paren_close, zone_added, zone_text,
    NetclassNotFound,
};
use crate::decimal::{read_i32, signed_decimal};
use crate::edits::{
    is_gap, is_list_text, law_insertion_adds_an_item, node_at, stretch_of, with_node,
};
use crate::json::{json_document, JsonTree};
use crate::padnet::{is_plain, law_code_is_that_of_the_first_declaration};
use crate::sexp::{is_delimiter, read_sexp, Sexp};
use crate::spelling::{
    is_word, lemma_closed, lemma_headed_list, lemma_plain_stands, lemma_written_on,
};
use crate::text::{
    count_from, find, find_in, is_first_match, is_last_match, lemma_find_in, lemma_first_is_found,
    lemma_last_is_found, matches_at, occurs, rfind_in, splice,
};

verus! {

// ─── Numbers ──────────────────────────────────────────────────────────────────

/// At how many positions from `a` to `b` a net entry opens.
pub open spec fn mentions(s: Seq<char>, a: int, b: int) -> nat
    decreases b - a,
{
    if a >= b {
        0
    } else {
        mentions(s, a, b - 1) + (if matches_at(s, "(net "@, b - 1) {
            1nat
        } else {
            0
        })
    }
}

proof fn lemma_mentions_split(s: Seq<char>, a: int, m: int, b: int)
    requires
        a <= m <= b,
    ensures
        mentions(s, a, b) == mentions(s, a, m) + mentions(s, m, b),
    decreases b - m,
{
    if m < b {
        lemma_mentions_split(s, a, m, b - 1);
    }
}

proof fn lemma_mentions_none(s: Seq<char>, a: int, b: int)
    requires
        forall|k: int| a <= k < b ==> !#[trigger] matches_at(s, "(net "@, k),
    ensures
        mentions(s, a, b) == 0,
    decreases b - a,
{
    if a < b {
        lemma_mentions_none(s, a, b - 1);
    }
}

proof fn lemma_mentions_same(s: Seq<char>, t: Seq<char>, a: int, b: int, d: int)
    requires
        forall|k: int|
            a <= k < b ==> #[trigger] matches_at(s, "(net "@, k) == matches_at(t, "(net "@, k + d),
    ensures
        mentions(s, a, b) == mentions(t, a + d, b + d),
    decreases b - a,
{
    if a < b {
        lemma_mentions_same(s, t, a, b - 1, d);
        assert(matches_at(s, "(net "@, b - 1) == matches_at(t, "(net "@, b - 1 + d));
    }
}

/// Where a net entry opens, what its characters are.
proof fn lemma_opening(s: Seq<char>, k: int)
    ensures
        matches_at(s, "(net "@, k) <==> 0 <= k && k + 5 <= s.len() && s[k] == '(' && s[k + 1] == 'n'
            && s[k + 2] == 'e' && s[k + 3] == 't' && s[k + 4] == ' ',
{
    reveal_strlit("(net ");
    if 0 <= k && k + 5 <= s.len() {
        let w = s.subrange(k, k + 5);
        assert(w[0] == s[k] && w[1] == s[k + 1] && w[2] == s[k + 2] && w[3] == s[k + 3] && w[4]
            == s[k + 4]);
        if s[k] == '(' && s[k + 1] == 'n' && s[k + 2] == 'e' && s[k + 3] == 't' && s[k + 4] == ' ' {
            assert(w =~= "(net "@);
        }
    }
}

proof fn lemma_count(s: Seq<char>, i: int)
    requires
        0 <= i <= s.len(),
    ensures
        count_from(s, "(net "@, i) == mentions(s, i, s.len() as int),
    decreases s.len() - i,
{
    let n = s.len() as int;
    reveal_strlit("(net ");
    lemma_find_in(s, "(net "@, i, n);
    match find_in(s, "(net "@, i, n) {
        Some(k) => {
            lemma_opening(s, k);
            lemma_count(s, k + 5);
            assert forall|j: int| k + 1 <= j < k + 5 implies !#[trigger] matches_at(
                s,
                "(net "@,
                j,
            ) by {
                lemma_opening(s, j);
            }
            lemma_mentions_none(s, i, k);
            lemma_mentions_none(s, k + 1, k + 5);
            lemma_mentions_split(s, i, k, n);
            lemma_mentions_split(s, k, k + 1, n);
            lemma_mentions_split(s, k + 1, k + 5, n);
            assert(mentions(s, k, k) == 0);
            assert(mentions(s, k, k + 1) == 1);
        },
        None => {
            assert forall|j: int| i <= j < n implies !#[trigger] matches_at(s, "(net "@, j) by {
                lemma_opening(s, j);
            }
            lemma_mentions_none(s, i, n);
        },
    }
}

/// The number of a new net is how many net entries open in the file.
pub proof fn law_new_number_counts_the_entries(s: Seq<char>)
    requires
        mentions(s, 0, s.len() as int) <= 0x7fff_ffff,
    ensures
        next_net_id(s) == mentions(s, 0, s.len() as int),
{
    lemma_count(s, 0);
}

/// In the line that declares a net one entry opens.
proof fn lemma_line_mentions_once(id: int, name: Seq<char>, t: Seq<char>, p: int)
    requires
        !occurs(name, "(net "@),
        0 <= p,
        p + net_line(id, name).len() <= t.len(),
        t.subrange(p, p + net_line(id, name).len()) == net_line(id, name),
    ensures
        mentions(t, p, p + net_line(id, name).len()) == 1,
{
    let x = net_line(id, name);
    let code = signed_decimal(id);
    let n = x.len() as int;
    let c = code.len() as int;
    let m = name.len() as int;
    reveal_strlit("\n  (net ");
    reveal_strlit(" \"");
    reveal_strlit("\")");
    assert(n == 12 + c + m);
    lemma_number_is_bare(id);
    assert forall|k: int| 0 <= k < n implies #[trigger] t[p + k] == x[k] by {
        assert(t.subrange(p, p + n)[k] == t[p + k]);
    }
    assert(x[3] == '(' && x[4] == 'n' && x[5] == 'e' && x[6] == 't' && x[7] == ' ');
    assert(t[p + 3] == '(' && t[p + 4] == 'n' && t[p + 5] == 'e' && t[p + 6] == 't' && t[p + 7]
        == ' ');
    lemma_opening(t, p + 3);
    assert forall|k: int| p <= k < p + n && k != p + 3 implies !#[trigger] matches_at(
        t,
        "(net "@,
        k,
    ) by {
        lemma_opening(t, k);
        let i = k - p;
        assert(t[p + i] == x[i]);
        if i < 8 {
        } else if i < 8 + c {
            assert(x[i] == code[i - 8]);
            assert(is_delimiter('('));
        } else if i < 10 + c {
        } else if i < 10 + c + m {
            let j = i - 10 - c;
            assert(x[i] == name[j]);
            if matches_at(t, "(net "@, k) {
                if j + 5 <= m {
                    assert(t[p + (i + 1)] == x[i + 1] && t[p + (i + 2)] == x[i + 2] && t[p + (i
                        + 3)] == x[i + 3] && t[p + (i + 4)] == x[i + 4]);
                    assert(x[i + 1] == name[j + 1] && x[i + 2] == name[j + 2] && x[i + 3] == name[j
                        + 3] && x[i + 4] == name[j + 4]);
                    lemma_opening(name, j);
                    assert(matches_at(name, "(net "@, j));
                } else {
                    let q = m - j;
                    assert(x[10 + c + m] == '"');
                    assert(t[p + (i + q)] == x[i + q]);
                    assert(t[k + q] == '"');
                }
            }
        } else {
        }
    }
    lemma_mentions_none(t, p, p + 3);
    lemma_mentions_none(t, p + 4, p + n);
    lemma_mentions_split(t, p, p + 3, p + n);
    lemma_mentions_split(t, p + 3, p + 4, p + n);
    assert(mentions(t, p + 3, p + 3) == 0);
    assert(mentions(t, p + 3, p + 4) == 1);
}

/// Nets are numbered one after the other: a net that is added after another has the next
/// number.
pub proof fn law_numbers_are_consecutive(s: Seq<char>, name: Seq<char>)
    requires
        !occurs(name, "(net "@),
        mentions(s, 0, s.len() as int) < 0x7fff_ffff,
    ensures
        next_net_id(net_added(s, name)) == next_net_id(s) + 1,
{
    let p = last_place(s);
    let x = net_line(next_net_id(s) as int, name);
    let t = net_added(s, name);
    let n = s.len() as int;
    let d = x.len() as int;
    lemma_close_place(s);
    reveal_strlit("\n  (net ");
    reveal_strlit("\")");
    assert(x[0] == '\n');
    assert forall|k: int| 0 <= k < p implies #[trigger] matches_at(s, "(net "@, k) == matches_at(
        t,
        "(net "@,
        k + 0,
    ) by {
        lemma_opening(s, k);
        lemma_opening(t, k);
        assert(t[p] == x[0]);
        if k + 5 > p {
            assert(t[k + (p - k)] == '\n');
            if p < n {
                assert(s[k + (p - k)] == ')');
            }
        }
    }
    lemma_mentions_same(s, t, 0, p, 0);
    assert(t.subrange(p, p + d) =~= x);
    lemma_line_mentions_once(next_net_id(s) as int, name, t, p);
    assert forall|k: int| p <= k < n implies #[trigger] matches_at(s, "(net "@, k) == matches_at(
        t,
        "(net "@,
        k + d,
    ) by {
        lemma_opening(s, k);
        lemma_opening(t, k + d);
        assert forall|j: int| p <= j < n implies #[trigger] s[j] == t[j + d] by {}
    }
    lemma_mentions_same(s, t, p, n, d);
    lemma_mentions_split(s, 0, p, n);
    lemma_mentions_split(t, 0, p, n + d);
    lemma_mentions_split(t, p, p + d, n + d);
    lemma_count(s, 0);
    lemma_count(t, 0);
}

/// What is to stand last goes before the last closing parenthesis, or to the end of a file
/// that has none.
pub proof fn lemma_last_place_is(s: Seq<char>, at: int)
    requires
        0 <= at <= s.len(),
        at < s.len() ==> s[at] == ')',
        forall|j: int| at < j < s.len() ==> #[trigger] s[j] != ')',
        at == s.len() ==> forall|j: int| 0 <= j < s.len() ==> #[trigger] s[j] != ')',
    ensures
        last_place(s) == at,
{
    reveal_strlit(")");
    let n = s.len() as int;
    assert forall|j: int| 0 <= j < n implies (#[trigger] matches_at(s, ")"@, j) <==> s[j]
        == ')') by {
        assert(s.subrange(j, j + 1) =~= seq![s[j]]);
        assert(")"@ =~= seq![')']);
        assert(seq![s[j]][0] == s[j]);
        assert(seq![')'][0] == ')');
    }
    if at < n {
        assert(matches_at(s, ")"@, at));
        assert(is_last_match(s, ")"@, n, at));
        lemma_last_is_found(s, ")"@, n, at);
    } else if rfind_in(s, ")"@, n) is Some {
        let i = choose|i: int| is_last_match(s, ")"@, n, i);
        assert(matches_at(s, ")"@, i));
    }
}

/// A zone, and a netclass of a board without a list of them, are inserted there too, and
/// nothing else in the file is different.
pub proof fn law_zones_and_netclasses_stand_last(
    s: Seq<char>,
    at: int,
    net_name: Seq<char>,
    layer: Seq<char>,
    clearance: serde_json::Number,
    min_width: serde_json::Number,
    pts: Seq<(serde_json::Number, serde_json::Number)>,
    uuid: Seq<char>,
)
    requires
        0 <= at <= s.len(),
        at < s.len() ==> s[at] == ')',
        forall|j: int| at < j < s.len() ==> #[trigger] s[j] != ')',
        at == s.len() ==> forall|j: int| 0 <= j < s.len() ==> #[trigger] s[j] != ')',
    ensures
        zone_added(s, net_name, layer, clearance, min_width, pts, uuid) == s.take(at) + zone_text(
            net_id(s, net_name),
            net_name,
            layer,
            clearance,
            min_width,
            pts,
            uuid,
        ) + s.skip(at),
        !occurs(s, "(net_classes"@) ==> netclass_place(s) == Some(at),
{
    lemma_last_place_is(s, at);
    lemma_find_in(s, "(net_classes"@, 0, s.len() as int);
    let text = zone_text(
        net_id(s, net_name),
        net_name,
        layer,
        clearance,
        min_width,
        pts,
        uuid,
    );
    assert(splice(s, at, at, text) =~= s.take(at) + text + s.skip(at));
}

/// Whatever characters its name holds, a net is added on a line of its own, before the last
/// closing parenthesis of the file or at its end, with its number and its name as it is.
pub proof fn law_added_net_is_a_line(s: Seq<char>, name: Seq<char>, at: int)
    requires
        0 <= at <= s.len(),
        at < s.len() ==> s[at] == ')',
        forall|j: int| at < j < s.len() ==> #[trigger] s[j] != ')',
        at == s.len() ==> forall|j: int| 0 <= j < s.len() ==> #[trigger] s[j] != ')',
    ensures
        net_added(s, name) == s.take(at) + "\n  (net "@ + signed_decimal(next_net_id(s) as int)
            + " \""@ + name + "\")"@ + s.skip(at),
{
    lemma_last_place_is(s, at);
    let line = net_line(next_net_id(s) as int, name);
    assert(splice(s, at, at, line) =~= s.take(at) + "\n  (net "@ + signed_decimal(
        next_net_id(s) as int,
    ) + " \""@ + name + "\")"@ + s.skip(at));
}

/// What is to stand last stands before the last closing parenthesis of the file.
proof fn lemma_close_place(s: Seq<char>)
    ensures
        0 <= last_place(s) <= s.len(),
        last_place(s) < s.len() ==> s[last_place(s)] == ')',
{
    reveal_strlit(")");
    if let Some(i) = rfind_in(s, ")"@, s.len() as int) {
        let c = choose|c: int| is_last_match(s, ")"@, s.len() as int, c);
        assert(is_last_match(s, ")"@, s.len() as int, c));
        assert(s.subrange(c, c + 1)[0] == s[c]);
    }
}

/// A net that the board does not declare has the code that stands before its name where it
/// is first mentioned.
pub proof fn law_mentioned_net_has_its_code(s: Seq<char>, i: int, code: Seq<char>, name: Seq<char>)
    requires
        declared_id(s, name) is None,
        is_word(code),
        matches_at(s, "(net "@ + code + " \""@ + name + "\")"@, i),
        forall|j: int|
            0 <= j < i + 5 + code.len() ==> !#[trigger] matches_at(s, " \""@ + name + "\")"@, j),
    ensures
        net_id_readable(s, name),
        read_i32(code) matches Some(n) ==> net_id(s, name) == n,
        read_i32(code) is None ==> net_id(s, name) == 0,
{
    reveal_strlit("(net ");
    reveal_strlit(" \"");
    reveal_strlit("\")");
    reveal_strlit(" ");
    let whole = "(net "@ + code + " \""@ + name + "\")"@;
    let pattern = " \""@ + name + "\")"@;
    let c = code.len() as int;
    let pos = i + 5 + c;
    let n = s.len() as int;
    assert forall|k: int| 0 <= k < whole.len() implies #[trigger] s[i + k] == whole[k] by {
        assert(s.subrange(i, i + whole.len())[k] == s[i + k]);
    }
    assert(s.subrange(pos, pos + pattern.len()) =~= pattern) by {
        assert forall|k: int| 0 <= k < pattern.len() implies s[pos + k] == pattern[k] by {
            assert(s[i + (5 + c + k)] == whole[5 + c + k]);
        }
    }
    assert(is_first_match(s, pattern, 0, n, pos));
    lemma_first_is_found(s, pattern, 0, n, pos);
    assert(name_pattern(name) == pattern);
    // The entry is the last one that opens before the name.
    assert(s.subrange(i, i + 5) =~= "(net "@) by {
        assert forall|k: int| 0 <= k < 5 implies s[i + k] == "(net "@[k] by {
            assert(s[i + k] == whole[k]);
        }
    }
    assert forall|j: int| i < j <= pos - 5 implies !#[trigger] matches_at(s, "(net "@, j) by {
        lemma_opening(s, j);
        let k = j - i;
        assert(s[i + k] == whole[k]);
        if k >= 5 {
            assert(whole[k] == code[k - 5]);
            assert(is_delimiter('('));
        }
    }
    assert(is_last_match(s, "(net "@, pos, i));
    lemma_last_is_found(s, "(net "@, pos, i);
    // Its code is one word.
    assert(s.subrange(i + 5, pos) =~= code) by {
        assert forall|k: int| 0 <= k < c implies s[i + 5 + k] == code[k] by {
            assert(s[i + (5 + k)] == whole[5 + k]);
        }
    }
    lemma_find_in(s, " "@, i + 5, pos);
    if let Some(e) = find_in(s, " "@, i + 5, pos) {
        assert(s.subrange(e, e + 1)[0] == s[e]);
        assert(s.subrange(i + 5, pos)[e - i - 5] == ' ');
        assert(is_delimiter(' '));
    }
}

/// A net that is neither declared nor mentioned has no code: it is zero.
pub proof fn law_unknown_net_has_no_code(s: Seq<char>, name: Seq<char>)
    requires
        declared_id(s, name) is None,
        !occurs(s, " \""@ + name + "\")"@),
    ensures
        net_id_readable(s, name),
        net_id(s, name) == 0,
{
    lemma_find_in(s, name_pattern(name), 0, s.len() as int);
}

// ─── Netclasses ───────────────────────────────────────────────────────────────

/// The netclasses of a board are kept in its project just where the board has none of its
/// own and the project is a JSON document with a list of them.
pub proof fn law_where_netclasses_are_kept(board: Seq<char>, project: Option<Seq<char>>)
    ensures
        kept_in_project(board, project) <==> {
            &&& !occurs(board, "(net_class "@)
            &&& project is Some
            &&& json_document(project->0) is Some
            &&& json_document(project->0)->0.get("net_settings"@) is Some
            &&& json_document(project->0)->0.get("net_settings"@)->0.get(
                "classes"@,
            ) matches Some(JsonTree::Array(_))
        },
{
}

/// A netclass goes before the first line that closes its list, where the board has a list of
/// netclasses with such a line.
pub proof fn law_netclass_goes_into_the_list(s: Seq<char>, start: int, at: int)
    requires
        is_first_match(s, "(net_classes"@, 0, s.len() as int, start),
        is_first_match(s, "\n    )"@, start, s.len() as int, at),
    ensures
        netclass_place(s) == Some(at),
{
    lemma_first_is_found(s, "(net_classes"@, 0, s.len() as int, start);
    lemma_first_is_found(s, "\n    )"@, start, s.len() as int, at);
}

/// A block whose parentheses all have their partners ends with the one that closes it.
pub proof fn law_block_ends_where_it_is_closed(s: Seq<char>, start: int, inside: Seq<char>)
    requires
        0 <= start,
        start + 2 + inside.len() <= s.len(),
        s[start] == '(',
        s.subrange(start + 1, start + 1 + inside.len()) == inside,
        s[start + 1 + inside.len()] == ')',
        is_balanced(inside),
    ensures
        paren_close(s, start, 0) == Some(start + 1 + inside.len()),
{
    lemma_balanced(s, start + 1, inside, 0, 0, 1);
    assert(paren_close(s, start, 0) == paren_close(s, start + 1, 1));
}

/// Assigning a net to a netclass fails just where the file has no netclass of the name. It
/// changes nothing just where the net stands in the block of the netclass already;
/// otherwise the net is inserted before the parenthesis that closes the block.
pub proof fn law_what_assigning_does(
    s: Seq<char>,
    net: Seq<char>,
    class: Seq<char>,
    start: int,
    inside: Seq<char>,
)
    requires
        is_first_match(s, "(netclass \""@ + class + "\""@, 0, s.len() as int, start),
        start + 2 + inside.len() <= s.len(),
        s.subrange(start + 1, start + 1 + inside.len()) == inside,
        s[start + 1 + inside.len()] == ')',
        is_balanced(inside),
    ensures
        ({
            let end = start + 1 + inside.len();
            let known = occurs(s.subrange(start, end), "(net \""@ + net + "\")"@);
            &&& known ==> net_assigned(s, net, class) == Ok::<Option<Seq<char>>, NetclassNotFound>(
                None,
            )
            &&& !known ==> net_assigned(s, net, class) == Ok::<Option<Seq<char>>, NetclassNotFound>(
                Some(
                    s.take(end) + "\n        (net \""@ + net + "\")"@ + s.skip(end),
                ),
            )
        }),
{
    let end = start + 1 + inside.len();
    let pattern = class_pattern(class);
    reveal_strlit("(netclass \"");
    assert(s.subrange(start, start + pattern.len())[0] == s[start]);
    assert(pattern[0] == '(');
    lemma_first_is_found(s, pattern, 0, s.len() as int, start);
    law_block_ends_where_it_is_closed(s, start, inside);
    reveal_strlit("\n        (net \"");
    reveal_strlit("\n        ");
    reveal_strlit("(net \"");
    assert("\n        (net \""@ =~= "\n        "@ + "(net \""@);
    let entry = "\n        "@ + member_text(net);
    assert(splice(s, end, end, entry) =~= s.take(end) + "\n        (net \""@ + net + "\")"@
        + s.skip(end));
}

/// A netclass that the file does not have is not found.
pub proof fn law_assigning_to_no_netclass(s: Seq<char>, net: Seq<char>, class: Seq<char>)
    requires
        !occurs(s, "(netclass \""@ + class + "\""@),
    ensures
        net_assigned(s, net, class) == Err::<Option<Seq<char>>, NetclassNotFound>(NetclassNotFound),
{
    lemma_find_in(s, class_pattern(class), 0, s.len() as int);
}

proof fn lemma_member_reads_back(net: Seq<char>)
    requires
        is_plain(net),
    ensures
        is_list_text(member_text(net), Sexp::List(seq![Sexp::Atom("net"@), Sexp::Str(net)])),
{
    let key = "net"@;
    let q = seq!['"'];
    reveal_strlit("net");
    reveal_strlit("(net \"");
    reveal_strlit("\")");
    assert(is_word(key));
    assert(is_gap(seq![' ']));
    lemma_headed_list(key);
    lemma_plain_stands(net);
    let v = seq![Sexp::Atom(key)];
    lemma_written_on(seq!['('] + key, v, seq![' '], q + net + q, Sexp::Str(net));
    let b = seq!['('] + key + seq![' '] + (q + net + q);
    assert(v.push(Sexp::Str(net)) =~= seq![Sexp::Atom(key), Sexp::Str(net)]);
    lemma_closed(b, seq![Sexp::Atom(key), Sexp::Str(net)]);
    assert(b.push(')') =~= member_text(net));
}

/// A net that was assigned to a netclass is read back: the list of the netclass has it as
/// its last item, and nothing else in the file is different.
pub proof fn law_assigned_net_reads_back(
    s: Seq<char>,
    net: Seq<char>,
    class: Seq<char>,
    path: Seq<nat>,
    start: int,
    end: int,
)
    requires
        net_assigned(s, net, class) matches Ok(Some(_)),
        read_sexp(s) is Some,
        is_plain(net),
        find(s, "(netclass \""@ + class + "\""@) == Some(start),
        paren_close(s, start, 0) == Some(end),
        stretch_of(s, 0, path) == Some((start, end + 1)),
        node_at(read_sexp(s)->0, path) matches Some(Sexp::List(_)),
    ensures
        read_sexp(net_assigned(s, net, class)->Ok_0->0) == Some(
            with_node(
                read_sexp(s)->0,
                path,
                Sexp::List(
                    node_at(read_sexp(s)->0, path)->0.items().push(
                        Sexp::List(seq![Sexp::Atom("net"@), Sexp::Str(net)]),
                    ),
                ),
            ),
        ),
{
    let gap = "\n        "@;
    reveal_strlit("\n        ");
    assert(is_gap(gap));
    lemma_member_reads_back(net);
    law_insertion_adds_an_item(
        s,
        path,
        gap,
        member_text(net),
        Sexp::List(seq![Sexp::Atom("net"@), Sexp::Str(net)]),
    );
}

/// A list of netclasses without such a line has the netclass before the first parenthesis that
/// is closed in it.
pub proof fn law_netclass_goes_before_a_parenthesis(s: Seq<char>, start: int, at: int)
    requires
        is_first_match(s, "(net_classes"@, 0, s.len() as int, start),
        forall|j: int| start <= j ==> !#[trigger] matches_at(s, "\n    )"@, j),
        is_first_match(s, ")"@, start, s.len() as int, at),
    ensures
        netclass_place(s) == Some(at),
{
    lemma_first_is_found(s, "(net_classes"@, 0, s.len() as int, start);
    lemma_find_in(s, "\n    )"@, start, s.len() as int);
    lemma_first_is_found(s, ")"@, start, s.len() as int, at);
}

/// The code of a net that the board declares with a number is that of its first declaration.
pub proof fn law_declared_net_has_its_code(s: Seq<char>, i: int, code: int, name: Seq<char>)
    requires
        read_sexp(s) is Some,
        0 <= i < read_sexp(s)->0.find_all("net"@).len(),
        ({
            let nets = read_sexp(s)->0.find_all("net"@);
            &&& nets[i].item_text(2) == Some(name)
            &&& nets[i].item_text(1) matches Some(t) && read_i32(t) == Some(code)
            &&& forall|k: int| 0 <= k < i ==> (#[trigger] nets[k]).item_text(2) != Some(name)
        }),
    ensures
        net_id_readable(s, name),
        net_id(s, name) == code,
{
    law_code_is_that_of_the_first_declaration(read_sexp(s)->0.find_all("net"@), name, i);
}

} // verus!
