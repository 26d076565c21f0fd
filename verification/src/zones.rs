//! What a copper zone and a netclass that were inserted into a board are read back as.
use vstd::prelude::*;
use crate::board_edit::{
    argument_text, lemma_last_place, lemma_number_is_bare, net_id, netclass_place, netclass_text, points_text,
    zone_added, zone_text,
};
use crate::decimal::signed_decimal;
use crate::edits::{
    is_gap, is_list_text, law_insertion_adds_an_item, law_stretch_is_of_the_node, node_at,
};
use crate::json::{float_text, JsonTree};
use crate::padnet::is_plain;
use crate::sexp::{read_sexp, Sexp};
use crate::spelling::{
    is_open_list, is_word, lemma_closed, lemma_closed_late, lemma_headed_list,
    lemma_plain_stands, lemma_word_stands, lemma_written_on, stands_for,
};
use crate::text::{lemma_find_in, occurs, splice};

verus! {

// ─── Corners ──────────────────────────────────────────────────────────────────

/// The corners of two lists of points, one after the other, are those of the whole list;
/// the corner of one point is a line with its two numbers. So there is one line for each
/// point, in the order of the points, however many there are.
pub proof fn law_corners_are_written_one_by_one(
    a: Seq<(serde_json::Number, serde_json::Number)>,
    b: Seq<(serde_json::Number, serde_json::Number)>,
    p: (serde_json::Number, serde_json::Number),
)
    ensures
        points_text(a + b) == points_text(a) + points_text(b),
        points_text(seq![p]) == "\n      (xy "@ + float_text(p.0) + " "@ + float_text(p.1) + ")"@,
        points_text(Seq::empty()) == Seq::<char>::empty(),
    decreases b.len(),
{
    if b.len() == 0 {
        assert(a + b =~= a);
        assert(points_text(a) + points_text(b) =~= points_text(a));
    } else {
        law_corners_are_written_one_by_one(a, b.drop_last(), p);
        assert((a + b).drop_last() =~= a + b.drop_last());
        assert((a + b).last() == b.last());
        assert(points_text(a + b) =~= points_text(a) + points_text(b));
    }
    let one = seq![p];
    assert(one.drop_last() =~= Seq::<(serde_json::Number, serde_json::Number)>::empty());
    assert(points_text(one.drop_last()) == Seq::<char>::empty());
    assert(points_text(one) =~= "\n      (xy "@ + float_text(p.0) + " "@ + float_text(p.1) + ")"@);
}

/// Are the numbers of the points written as words?
pub open spec fn are_words(pts: Seq<(serde_json::Number, serde_json::Number)>) -> bool {
    forall|i: int|
        0 <= i < pts.len() ==> is_word(float_text((#[trigger] pts[i]).0)) && is_word(
            float_text(pts[i].1),
        )
}

/// A list of a word and one more item.
pub open spec fn pair(key: Seq<char>, value: Sexp) -> Sexp {
    Sexp::List(seq![Sexp::Atom(key), value])
}

/// A list of a word and one more item, written on one line.
spec fn pair_text(key: Seq<char>, x: Seq<char>) -> Seq<char> {
    (seq!['('] + key + seq![' '] + x).push(')')
}

proof fn lemma_pair(key: Seq<char>, x: Seq<char>, value: Sexp)
    requires
        is_word(key),
        stands_for(x, value),
    ensures
        is_list_text(pair_text(key, x), pair(key, value)),
        stands_for(pair_text(key, x), pair(key, value)),
{
    lemma_headed_list(key);
    assert(is_gap(seq![' ']));
    lemma_written_on(seq!['('] + key, seq![Sexp::Atom(key)], seq![' '], x, value);
    assert(seq![Sexp::Atom(key)].push(value) =~= seq![Sexp::Atom(key), value]);
    lemma_closed(seq!['('] + key + seq![' '] + x, seq![Sexp::Atom(key), value]);
}

proof fn lemma_corner(x: Seq<char>, y: Seq<char>)
    requires
        is_word(x),
        is_word(y),
    ensures
        stands_for(
            "(xy "@ + x + " "@ + y + ")"@,
            Sexp::List(seq![Sexp::Atom("xy"@), Sexp::Atom(x), Sexp::Atom(y)]),
        ),
{
    reveal_strlit("xy");
    reveal_strlit("(xy ");
    reveal_strlit(" ");
    reveal_strlit(")");
    let key = "xy"@;
    assert(is_word(key));
    lemma_headed_list(key);
    let gap = seq![' '];
    assert(is_gap(gap));
    lemma_word_stands(x);
    lemma_word_stands(y);
    let b0 = seq!['('] + key;
    let v0 = seq![Sexp::Atom(key)];
    lemma_written_on(b0, v0, gap, x, Sexp::Atom(x));
    lemma_written_on(b0 + gap + x, v0.push(Sexp::Atom(x)), gap, y, Sexp::Atom(y));
    let b = b0 + gap + x + gap + y;
    let v = v0.push(Sexp::Atom(x)).push(Sexp::Atom(y));
    assert(v =~= seq![Sexp::Atom(key), Sexp::Atom(x), Sexp::Atom(y)]);
    lemma_closed(b, v);
    assert(b.push(')') =~= "(xy "@ + x + " "@ + y + ")"@);
}

/// The corners that a list of points stands for, as expressions.
spec fn corners(pts: Seq<(serde_json::Number, serde_json::Number)>) -> Seq<Sexp> {
    Seq::new(
        pts.len(),
        |i: int|
            Sexp::List(
                seq![
                    Sexp::Atom("xy"@),
                    Sexp::Atom(float_text(pts[i].0)),
                    Sexp::Atom(float_text(pts[i].1)),
                ],
            ),
    )
}

proof fn lemma_corners(pts: Seq<(serde_json::Number, serde_json::Number)>)
    requires
        are_words(pts),
    ensures
        is_open_list("(pts"@ + points_text(pts), seq![Sexp::Atom("pts"@)] + corners(pts)),
    decreases pts.len(),
{
    reveal_strlit("(pts");
    reveal_strlit("pts");
    let head = seq![Sexp::Atom("pts"@)];
    if pts.len() == 0 {
        assert(is_word("pts"@));
        lemma_headed_list("pts"@);
        assert("(pts"@ + points_text(pts) =~= seq!['('] + "pts"@);
        assert(head + corners(pts) =~= head);
    } else {
        let before = pts.drop_last();
        let (x, y) = (float_text(pts.last().0), float_text(pts.last().1));
        assert forall|i: int| 0 <= i < before.len() implies is_word(
            float_text((#[trigger] before[i]).0),
        ) && is_word(float_text(before[i].1)) by {
            assert(before[i] == pts[i]);
        }
        assert(pts[pts.len() - 1] == pts.last());
        lemma_corners(before);
        lemma_corner(x, y);
        let gap = "\n      "@;
        reveal_strlit("\n      ");
        reveal_strlit("\n      (xy ");
        reveal_strlit("(xy ");
        assert(is_gap(gap));
        let corner = Sexp::List(seq![Sexp::Atom("xy"@), Sexp::Atom(x), Sexp::Atom(y)]);
        let text = "(xy "@ + x + " "@ + y + ")"@;
        let b = "(pts"@ + points_text(before);
        lemma_written_on(b, head + corners(before), gap, text, corner);
        assert("\n      (xy "@ =~= gap + "(xy "@);
        assert("(pts"@ + points_text(pts) =~= b + gap + text);
        assert(head + corners(pts) =~= (head + corners(before)).push(corner));
    }
}

// ─── Zones ────────────────────────────────────────────────────────────────────

/// The beginning of a zone: its net, its layer and what it is called.
proof fn lemma_zone_begin(
    n: Seq<char>,
    net_name: Seq<char>,
    layer: Seq<char>,
    uuid: Seq<char>,
) -> (r: (Seq<char>, Seq<Sexp>))
    requires
        is_word(n),
        is_plain(net_name),
        is_plain(layer),
        is_plain(uuid),
    ensures
        is_open_list(r.0, r.1),
        r.0 == "(zone (net "@ + n + ") (net_name \""@ + net_name + "\") (layer \""@ + layer
            + "\") (uuid \""@ + uuid + "\")"@,
        r.1 == seq![
            Sexp::Atom("zone"@),
            pair("net"@, Sexp::Atom(n)),
            pair("net_name"@, Sexp::Str(net_name)),
            pair("layer"@, Sexp::Str(layer)),
            pair("uuid"@, Sexp::Str(uuid)),
        ],
{
    let gap = seq![' '];
    assert(is_gap(gap));
    reveal_strlit("zone");
    reveal_strlit("net");
    reveal_strlit("net_name");
    reveal_strlit("layer");
    reveal_strlit("uuid");
    assert(is_word("zone"@) && is_word("net"@) && is_word("net_name"@) && is_word("layer"@)
        && is_word("uuid"@));
    let q = seq!['"'];
    lemma_word_stands(n);
    lemma_plain_stands(net_name);
    lemma_plain_stands(layer);
    lemma_plain_stands(uuid);
    let t1 = pair_text("net"@, n);
    let t2 = pair_text("net_name"@, q + net_name + q);
    let t3 = pair_text("layer"@, q + layer + q);
    let t4 = pair_text("uuid"@, q + uuid + q);
    lemma_pair("net"@, n, Sexp::Atom(n));
    lemma_pair("net_name"@, q + net_name + q, Sexp::Str(net_name));
    lemma_pair("layer"@, q + layer + q, Sexp::Str(layer));
    lemma_pair("uuid"@, q + uuid + q, Sexp::Str(uuid));
    let b0 = seq!['('] + "zone"@;
    let v0 = seq![Sexp::Atom("zone"@)];
    lemma_headed_list("zone"@);
    let b1 = b0 + gap + t1;
    let v1 = v0.push(pair("net"@, Sexp::Atom(n)));
    lemma_written_on(b0, v0, gap, t1, pair("net"@, Sexp::Atom(n)));
    let b2 = b1 + gap + t2;
    let v2 = v1.push(pair("net_name"@, Sexp::Str(net_name)));
    lemma_written_on(b1, v1, gap, t2, pair("net_name"@, Sexp::Str(net_name)));
    let b3 = b2 + gap + t3;
    let v3 = v2.push(pair("layer"@, Sexp::Str(layer)));
    lemma_written_on(b2, v2, gap, t3, pair("layer"@, Sexp::Str(layer)));
    let b4 = b3 + gap + t4;
    let v4 = v3.push(pair("uuid"@, Sexp::Str(uuid)));
    lemma_written_on(b3, v3, gap, t4, pair("uuid"@, Sexp::Str(uuid)));
    lemma_zone_words();
    let f1 = "(zone (net "@ + n;
    assert(f1.push(')') =~= b1);
    let f2 = f1 + ") (net_name \""@ + net_name;
    assert(f2 + "\")"@ =~= f1.push(')') + gap + t2);
    let f3 = f2 + "\") (layer \""@ + layer;
    assert(f3 + "\")"@ =~= (f2 + "\")"@) + gap + t3);
    let f4 = f3 + "\") (uuid \""@ + uuid;
    assert(f4 + "\")"@ =~= (f3 + "\")"@) + gap + t4);
    assert(v4 =~= seq![
        Sexp::Atom("zone"@),
        pair("net"@, Sexp::Atom(n)),
        pair("net_name"@, Sexp::Str(net_name)),
        pair("layer"@, Sexp::Str(layer)),
        pair("uuid"@, Sexp::Str(uuid)),
    ]);
    (b4, v4)
}

/// What stands between the first items of a zone.
proof fn lemma_zone_words()
    ensures
        "(zone (net "@ == seq!['('] + "zone"@ + seq![' ', '('] + "net"@ + seq![' '],
        ") (net_name \""@ == seq![')', ' ', '('] + "net_name"@ + seq![' ', '"'],
        "\") (layer \""@ == seq!['"', ')', ' ', '('] + "layer"@ + seq![' ', '"'],
        "\") (uuid \""@ == seq!['"', ')', ' ', '('] + "uuid"@ + seq![' ', '"'],
        "\")"@ == seq!['"', ')'],
{
    assert("(zone (net "@ =~= seq!['('] + "zone"@ + seq![' ', '('] + "net"@ + seq![' ']) by {
        reveal_strlit("zone");
        reveal_strlit("net");
        reveal_strlit("(zone (net ");
    }
    assert(") (net_name \""@ =~= seq![')', ' ', '('] + "net_name"@ + seq![' ', '"']) by {
        reveal_strlit("net_name");
        reveal_strlit(") (net_name \"");
    }
    assert("\") (layer \""@ =~= seq!['"', ')', ' ', '('] + "layer"@ + seq![' ', '"']) by {
        reveal_strlit("layer");
        reveal_strlit("\") (layer \"");
    }
    assert("\") (uuid \""@ =~= seq!['"', ')', ' ', '('] + "uuid"@ + seq![' ', '"']) by {
        reveal_strlit("uuid");
        reveal_strlit("\") (uuid \"");
    }
    assert("\")"@ =~= seq!['"', ')']) by {
        reveal_strlit("\")");
    }
}

/// The rest of a zone: how it is filled and its outline.
proof fn lemma_zone_rest(
    b: Seq<char>,
    v: Seq<Sexp>,
    clearance: Seq<char>,
    min_width: Seq<char>,
    pts: Seq<(serde_json::Number, serde_json::Number)>,
) -> (r: (Seq<char>, Seq<Sexp>))
    requires
        is_open_list(b, v),
        is_word(clearance),
        is_word(min_width),
        are_words(pts),
    ensures
        is_open_list(r.0, r.1),
        r.0 == b + "\n    (hatch edge 0.508)\n    (connect_pads (clearance "@ + clearance
            + "))\n    (min_thickness "@ + min_width + ")\n    (fill yes)\n    (polygon (pts"@
            + points_text(pts) + "\n    ))\n  "@,
        r.1 == v + seq![
            Sexp::List(seq![Sexp::Atom("hatch"@), Sexp::Atom("edge"@), Sexp::Atom("0.508"@)]),
            pair("connect_pads"@, pair("clearance"@, Sexp::Atom(clearance))),
            pair("min_thickness"@, Sexp::Atom(min_width)),
            pair("fill"@, Sexp::Atom("yes"@)),
            pair("polygon"@, Sexp::List(seq![Sexp::Atom("pts"@)] + corners(pts))),
        ],
{
    let gap = "\n    "@;
    reveal_strlit("\n    ");
    assert(is_gap(gap));
    let (b1, v1) = lemma_hatched(b, v);
    // The clearance and the least width.
    reveal_strlit("connect_pads");
    reveal_strlit("clearance");
    reveal_strlit("min_thickness");
    reveal_strlit("fill");
    reveal_strlit("yes");
    assert(is_word("connect_pads"@) && is_word("clearance"@) && is_word("min_thickness"@)
        && is_word("fill"@) && is_word("yes"@));
    lemma_word_stands(clearance);
    lemma_word_stands(min_width);
    lemma_word_stands("yes"@);
    let inner = pair_text("clearance"@, clearance);
    lemma_pair("clearance"@, clearance, Sexp::Atom(clearance));
    let t2 = pair_text("connect_pads"@, inner);
    let n2 = pair("connect_pads"@, pair("clearance"@, Sexp::Atom(clearance)));
    lemma_pair("connect_pads"@, inner, pair("clearance"@, Sexp::Atom(clearance)));
    let b2 = b1 + gap + t2;
    let v2 = v1.push(n2);
    lemma_written_on(b1, v1, gap, t2, n2);
    let t3 = pair_text("min_thickness"@, min_width);
    let n3 = pair("min_thickness"@, Sexp::Atom(min_width));
    lemma_pair("min_thickness"@, min_width, Sexp::Atom(min_width));
    let b3 = b2 + gap + t3;
    let v3 = v2.push(n3);
    lemma_written_on(b2, v2, gap, t3, n3);
    let t4 = pair_text("fill"@, "yes"@);
    let n4 = pair("fill"@, Sexp::Atom("yes"@));
    lemma_pair("fill"@, "yes"@, Sexp::Atom("yes"@));
    let b4 = b3 + gap + t4;
    let v4 = v3.push(n4);
    lemma_written_on(b3, v3, gap, t4, n4);
    let (t5, n5) = lemma_outline(pts);
    let b5 = b4 + gap + t5;
    let v5 = v4.push(n5);
    lemma_written_on(b4, v4, gap, t5, n5);
    let end = "\n  "@;
    reveal_strlit("\n  ");
    assert(is_gap(end));
    lemma_closed_late(b5, v5, end);
    // The same text, cut differently.
    lemma_filling_words();
    let f1 = b + "\n    (hatch edge 0.508)\n    (connect_pads (clearance "@ + clearance;
    assert(f1.push(')').push(')') =~= b2);
    let f2 = f1 + "))\n    (min_thickness "@ + min_width;
    assert(f2.push(')') =~= f1.push(')').push(')') + gap + t3);
    let f3 = f2 + ")\n    (fill yes)\n    (polygon (pts"@ + points_text(pts);
    assert(f3 + "\n    ))"@ =~= f2.push(')') + gap + t4 + gap + t5);
    let f4 = f3 + "\n    ))\n  "@;
    assert(f4 =~= f3 + "\n    ))"@ + end);
    assert(v5 =~= v + seq![
        Sexp::List(seq![Sexp::Atom("hatch"@), Sexp::Atom("edge"@), Sexp::Atom("0.508"@)]),
        n2,
        n3,
        n4,
        n5,
    ]);
    (b5 + end, v5)
}

/// What stands between the later items of a zone.
proof fn lemma_filling_words()
    ensures
        "\n    (hatch edge 0.508)\n    (connect_pads (clearance "@ == "\n    (hatch edge 0.508)"@ + "\n    "@ + seq!['('] + "connect_pads"@ + seq![' ', '('] + "clearance"@ + seq![' '],
        "))\n    (min_thickness "@ == seq![')', ')'] + "\n    "@ + seq!['('] + "min_thickness"@ + seq![' '],
        ")\n    (fill yes)\n    (polygon (pts"@ == seq![')'] + "\n    "@ + seq!['('] + "fill"@ + seq![' '] + "yes"@ + seq![')'] + "\n    "@ + "(polygon (pts"@,
        "\n    ))\n  "@ == "\n    ))"@ + "\n  "@,
{
    assert("\n    (hatch edge 0.508)\n    (connect_pads (clearance "@ =~= "\n    (hatch edge 0.508)"@ + "\n    "@ + seq!['('] + "connect_pads"@ + seq![' ', '('] + "clearance"@ + seq![' ']) by {
        reveal_strlit("\n    (hatch edge 0.508)");
        reveal_strlit("\n    ");
        reveal_strlit("connect_pads");
        reveal_strlit("clearance");
        reveal_strlit("\n    (hatch edge 0.508)\n    (connect_pads (clearance ");
    }
    assert("))\n    (min_thickness "@ =~= seq![')', ')'] + "\n    "@ + seq!['('] + "min_thickness"@ + seq![' ']) by {
        reveal_strlit("\n    ");
        reveal_strlit("min_thickness");
        reveal_strlit("))\n    (min_thickness ");
    }
    assert(")\n    (fill yes)\n    (polygon (pts"@ =~= seq![')'] + "\n    "@ + seq!['('] + "fill"@ + seq![' '] + "yes"@ + seq![')'] + "\n    "@ + "(polygon (pts"@) by {
        reveal_strlit("\n    ");
        reveal_strlit("fill");
        reveal_strlit("yes");
        reveal_strlit("(polygon (pts");
        reveal_strlit(")\n    (fill yes)\n    (polygon (pts");
    }
    assert("\n    ))\n  "@ =~= "\n    ))"@ + "\n  "@) by {
        reveal_strlit("\n    ))");
        reveal_strlit("\n  ");
        reveal_strlit("\n    ))\n  ");
    }
}

proof fn lemma_hatched(b: Seq<char>, v: Seq<Sexp>) -> (r: (Seq<char>, Seq<Sexp>))
    requires
        is_open_list(b, v),
    ensures
        is_open_list(r.0, r.1),
        r.0 == b + "\n    (hatch edge 0.508)"@,
        r.1 == v.push(
            Sexp::List(seq![Sexp::Atom("hatch"@), Sexp::Atom("edge"@), Sexp::Atom("0.508"@)]),
        ),
{
    reveal_strlit("hatch");
    reveal_strlit("edge");
    reveal_strlit("0.508");
    reveal_strlit("\n    ");
    assert(is_word("hatch"@) && is_word("edge"@) && is_word("0.508"@));
    let gap = seq![' '];
    assert(is_gap(gap));
    assert(is_gap("\n    "@));
    lemma_headed_list("hatch"@);
    lemma_word_stands("edge"@);
    lemma_word_stands("0.508"@);
    let h0 = seq!['('] + "hatch"@;
    let w0 = seq![Sexp::Atom("hatch"@)];
    lemma_written_on(h0, w0, gap, "edge"@, Sexp::Atom("edge"@));
    let h1 = h0 + gap + "edge"@;
    let w1 = w0.push(Sexp::Atom("edge"@));
    lemma_written_on(h1, w1, gap, "0.508"@, Sexp::Atom("0.508"@));
    let h2 = h1 + gap + "0.508"@;
    let w2 = w1.push(Sexp::Atom("0.508"@));
    assert(w2 =~= seq![Sexp::Atom("hatch"@), Sexp::Atom("edge"@), Sexp::Atom("0.508"@)]);
    lemma_closed(h2, w2);
    lemma_written_on(b, v, "\n    "@, h2.push(')'), Sexp::List(w2));
    reveal_strlit("\n    (hatch edge 0.508)");
    assert(b + "\n    "@ + h2.push(')') =~= b + "\n    (hatch edge 0.508)"@);
    (b + "\n    "@ + h2.push(')'), v.push(Sexp::List(w2)))
}

proof fn lemma_outline(pts: Seq<(serde_json::Number, serde_json::Number)>) -> (r: (Seq<char>, Sexp))
    requires
        are_words(pts),
    ensures
        stands_for(r.0, r.1),
        r.0 == "(polygon (pts"@ + points_text(pts) + "\n    ))"@,
        r.1 == pair("polygon"@, Sexp::List(seq![Sexp::Atom("pts"@)] + corners(pts))),
{
    reveal_strlit("polygon");
    reveal_strlit("(pts");
    reveal_strlit("(polygon (pts");
    reveal_strlit("\n    ");
    reveal_strlit("\n    ))");
    assert(is_word("polygon"@));
    assert(is_gap("\n    "@));
    let b = "(pts"@ + points_text(pts);
    let v = seq![Sexp::Atom("pts"@)] + corners(pts);
    lemma_corners(pts);
    lemma_closed_late(b, v, "\n    "@);
    let x = (b + "\n    "@).push(')');
    lemma_closed(b + "\n    "@, v);
    lemma_pair("polygon"@, x, Sexp::List(v));
    assert(pair_text("polygon"@, x) =~= "(polygon (pts"@ + points_text(pts) + "\n    ))"@);
    (pair_text("polygon"@, x), pair("polygon"@, Sexp::List(v)))
}

/// A zone that is added is read back: the new board is the old one with one more item, which
/// holds the net, the layer and the measures that were asked for, and whose outline has as
/// many corners as there are points, each with the two numbers of its point, in order.
pub proof fn law_zone_reads_back(
    s: Seq<char>,
    net_name: Seq<char>,
    layer: Seq<char>,
    clearance: serde_json::Number,
    min_width: serde_json::Number,
    pts: Seq<(serde_json::Number, serde_json::Number)>,
    uuid: Seq<char>,
)
    requires
        read_sexp(s) matches Some(Sexp::List(_)),
        is_plain(net_name),
        is_plain(layer),
        is_plain(uuid),
        is_word(float_text(clearance)),
        is_word(float_text(min_width)),
        are_words(pts),
    ensures
        read_sexp(zone_added(s, net_name, layer, clearance, min_width, pts, uuid)) == Some(
            Sexp::List(
                read_sexp(s)->0.items().push(
                    Sexp::List(
                        seq![
                            Sexp::Atom("zone"@),
                            pair("net"@, Sexp::Atom(signed_decimal(net_id(s, net_name)))),
                            pair("net_name"@, Sexp::Str(net_name)),
                            pair("layer"@, Sexp::Str(layer)),
                            pair("uuid"@, Sexp::Str(uuid)),
                            Sexp::List(
                                seq![
                                    Sexp::Atom("hatch"@),
                                    Sexp::Atom("edge"@),
                                    Sexp::Atom("0.508"@),
                                ],
                            ),
                            pair(
                                "connect_pads"@,
                                pair("clearance"@, Sexp::Atom(float_text(clearance))),
                            ),
                            pair("min_thickness"@, Sexp::Atom(float_text(min_width))),
                            pair("fill"@, Sexp::Atom("yes"@)),
                            pair(
                                "polygon"@,
                                Sexp::List(
                                    seq![Sexp::Atom("pts"@)] + Seq::new(
                                        pts.len(),
                                        |i: int|
                                            Sexp::List(
                                                seq![
                                                    Sexp::Atom("xy"@),
                                                    Sexp::Atom(float_text(pts[i].0)),
                                                    Sexp::Atom(float_text(pts[i].1)),
                                                ],
                                            ),
                                    ),
                                ),
                            ),
                        ],
                    ),
                ),
            ),
        ),
{
    let id = net_id(s, net_name);
    let x = zone_text(id, net_name, layer, clearance, min_width, pts, uuid).skip(3);
    let gap = "\n  "@;
    lemma_zone_is_a_list(id, net_name, layer, clearance, min_width, pts, uuid);
    let path = Seq::<nat>::empty();
    let tree = read_sexp(s)->0;
    lemma_last_place(s);
    law_stretch_is_of_the_node(s, 0, path);
    assert(node_at(tree, path) == Some(tree));
    law_insertion_adds_an_item(
        s,
        path,
        gap,
        x,
        Sexp::List(
            zone_items(
                signed_decimal(id),
                net_name,
                layer,
                float_text(clearance),
                float_text(min_width),
                pts,
                uuid,
            ),
        ),
    );
}

/// The items of a zone.
spec fn zone_items(
    n: Seq<char>,
    net_name: Seq<char>,
    layer: Seq<char>,
    clearance: Seq<char>,
    min_width: Seq<char>,
    pts: Seq<(serde_json::Number, serde_json::Number)>,
    uuid: Seq<char>,
) -> Seq<Sexp> {
    seq![
        Sexp::Atom("zone"@),
        pair("net"@, Sexp::Atom(n)),
        pair("net_name"@, Sexp::Str(net_name)),
        pair("layer"@, Sexp::Str(layer)),
        pair("uuid"@, Sexp::Str(uuid)),
        Sexp::List(seq![Sexp::Atom("hatch"@), Sexp::Atom("edge"@), Sexp::Atom("0.508"@)]),
        pair("connect_pads"@, pair("clearance"@, Sexp::Atom(clearance))),
        pair("min_thickness"@, Sexp::Atom(min_width)),
        pair("fill"@, Sexp::Atom("yes"@)),
        pair("polygon"@, Sexp::List(seq![Sexp::Atom("pts"@)] + corners(pts))),
    ]
}

/// The text of a zone is that of a list, on a line of its own.
proof fn lemma_zone_is_a_list(
    id: int,
    net_name: Seq<char>,
    layer: Seq<char>,
    clearance: serde_json::Number,
    min_width: serde_json::Number,
    pts: Seq<(serde_json::Number, serde_json::Number)>,
    uuid: Seq<char>,
)
    requires
        is_plain(net_name),
        is_plain(layer),
        is_plain(uuid),
        is_word(float_text(clearance)),
        is_word(float_text(min_width)),
        are_words(pts),
    ensures
        ({
            let text = zone_text(id, net_name, layer, clearance, min_width, pts, uuid);
            &&& is_gap("\n  "@)
            &&& text == "\n  "@ + text.skip(3)
            &&& is_list_text(
                text.skip(3),
                Sexp::List(
                    zone_items(
                        signed_decimal(id),
                        net_name,
                        layer,
                        float_text(clearance),
                        float_text(min_width),
                        pts,
                        uuid,
                    ),
                ),
            )
        }),
{
    let n = signed_decimal(id);
    let fc = float_text(clearance);
    let fm = float_text(min_width);
    lemma_number_is_bare(id);
    let (b, v) = lemma_zone_begin(n, net_name, layer, uuid);
    let (b2, v2) = lemma_zone_rest(b, v, fc, fm, pts);
    lemma_closed(b2, v2);
    let x = b2.push(')');
    lemma_zone_text(id, net_name, layer, clearance, min_width, pts, uuid);
    reveal_strlit("\n  ");
    assert(is_gap("\n  "@));
    assert(("\n  "@ + x).skip(3) =~= x);
    assert(v2 =~= zone_items(n, net_name, layer, fc, fm, pts, uuid));
}

/// The text of a zone, cut before its items.
proof fn lemma_zone_text(
    id: int,
    net_name: Seq<char>,
    layer: Seq<char>,
    clearance: serde_json::Number,
    min_width: serde_json::Number,
    pts: Seq<(serde_json::Number, serde_json::Number)>,
    uuid: Seq<char>,
)
    ensures
        ({
            let b = "(zone (net "@ + signed_decimal(id) + ") (net_name \""@ + net_name
                + "\") (layer \""@ + layer + "\") (uuid \""@ + uuid + "\")"@;
            let b2 = b + "\n    (hatch edge 0.508)\n    (connect_pads (clearance "@ + float_text(
                clearance,
            ) + "))\n    (min_thickness "@ + float_text(min_width)
                + ")\n    (fill yes)\n    (polygon (pts"@ + points_text(pts) + "\n    ))\n  "@;
            zone_text(id, net_name, layer, clearance, min_width, pts, uuid) == "\n  "@ + b2.push(')')
        }),
{
    let n = signed_decimal(id);
    let fc = float_text(clearance);
    let fm = float_text(min_width);
    let gap = "\n  "@;
    reveal_strlit("\n  ");
    reveal_strlit("\n  (zone (net ");
    reveal_strlit("(zone (net ");
    reveal_strlit("\")");
    reveal_strlit("\")\n    (hatch edge 0.508)\n    (connect_pads (clearance ");
    reveal_strlit("\n    (hatch edge 0.508)\n    (connect_pads (clearance ");
    reveal_strlit("\n    ))\n  )");
    reveal_strlit("\n    ))\n  ");
    let l = "\n    (hatch edge 0.508)\n    (connect_pads (clearance "@;
    assert("\")\n    (hatch edge 0.508)\n    (connect_pads (clearance "@ =~= "\")"@ + l);
    assert("\n  (zone (net "@ =~= gap + "(zone (net "@);
    assert("\n    ))\n  )"@ =~= "\n    ))\n  "@.push(')'));
    let a = "(zone (net "@ + n + ") (net_name \""@ + net_name + "\") (layer \""@ + layer
        + "\") (uuid \""@ + uuid;
    let z = "\n  (zone (net "@ + n + ") (net_name \""@ + net_name + "\") (layer \""@ + layer
        + "\") (uuid \""@ + uuid;
    assert(z =~= gap + a);
    let b = a + "\")"@;
    assert(z + "\")\n    (hatch edge 0.508)\n    (connect_pads (clearance "@ =~= gap + (b + l));
    let c = b + l + fc + "))\n    (min_thickness "@ + fm + ")\n    (fill yes)\n    (polygon (pts"@
        + points_text(pts);
    let y = z + "\")\n    (hatch edge 0.508)\n    (connect_pads (clearance "@ + fc
        + "))\n    (min_thickness "@ + fm + ")\n    (fill yes)\n    (polygon (pts"@ + points_text(
        pts,
    );
    assert(y =~= gap + c);
    assert(y + "\n    ))\n  )"@ =~= gap + (c + "\n    ))\n  "@).push(')'));
}

// ─── Netclasses ───────────────────────────────────────────────────────────────

/// Is `t` what a measure of a netclass is written as: the argument where there is one, and
/// the usual value where there is none?
pub open spec fn is_measure(t: Seq<char>, args: JsonTree, arg: Seq<char>, usual: Seq<char>) -> bool {
    &&& args.get_float(arg) matches Some(n) ==> t == float_text(n)
    &&& args.get_float(arg) is None ==> t == usual
}

/// A list that a pair is added to on a line of its own.
proof fn lemma_pair_added(
    b: Seq<char>,
    v: Seq<Sexp>,
    gap: Seq<char>,
    key: Seq<char>,
    x: Seq<char>,
) -> (r: (Seq<char>, Seq<Sexp>))
    requires
        is_open_list(b, v),
        is_gap(gap),
        is_word(key),
        is_word(x),
    ensures
        is_open_list(r.0, r.1),
        r.0 == (b + gap + seq!['('] + key + seq![' '] + x).push(')'),
        r.1 == v.push(pair(key, Sexp::Atom(x))),
{
    lemma_word_stands(x);
    lemma_pair(key, x, Sexp::Atom(x));
    lemma_written_on(b, v, gap, pair_text(key, x), pair(key, Sexp::Atom(x)));
    assert(b + gap + pair_text(key, x) =~= (b + gap + seq!['('] + key + seq![' '] + x).push(')'));
    (b + gap + pair_text(key, x), v.push(pair(key, Sexp::Atom(x))))
}

proof fn lemma_netclass_begin(name: Seq<char>) -> (r: (Seq<char>, Seq<Sexp>))
    requires
        is_plain(name),
    ensures
        is_open_list(r.0, r.1),
        r.0 == "(netclass \""@ + name + "\""@,
        r.1 == seq![Sexp::Atom("netclass"@), Sexp::Str(name)],
{
    reveal_strlit("netclass");
    reveal_strlit("(netclass \"");
    reveal_strlit("\"");
    let key = "netclass"@;
    let q = seq!['"'];
    assert(is_word(key));
    lemma_headed_list(key);
    lemma_plain_stands(name);
    assert(is_gap(seq![' ']));
    let v = seq![Sexp::Atom(key)];
    lemma_written_on(seq!['('] + key, v, seq![' '], q + name + q, Sexp::Str(name));
    let b = seq!['('] + key + seq![' '] + (q + name + q);
    assert(b =~= "(netclass \""@ + name + "\""@);
    assert(v.push(Sexp::Str(name)) =~= seq![Sexp::Atom(key), Sexp::Str(name)]);
    (b, v.push(Sexp::Str(name)))
}

/// The text of a netclass is that of a list which holds its name and its four measures.
pub proof fn law_netclass_text_reads_back(
    name: Seq<char>,
    args: JsonTree,
    clearance: Seq<char>,
    width: Seq<char>,
    drill: Seq<char>,
    diameter: Seq<char>,
)
    requires
        is_plain(name),
        is_measure(clearance, args, "clearance"@, "0.2"@),
        is_measure(width, args, "trace_width"@, "0.25"@),
        is_measure(drill, args, "via_drill"@, "0.4"@),
        is_measure(diameter, args, "via_diameter"@, "0.8"@),
        is_word(clearance),
        is_word(width),
        is_word(drill),
        is_word(diameter),
    ensures
        netclass_text(name, args) == "\n      "@ + netclass_text(name, args).skip(7),
        is_list_text(
            netclass_text(name, args).skip(7),
            Sexp::List(
                seq![
                    Sexp::Atom("netclass"@),
                    Sexp::Str(name),
                    pair("clearance"@, Sexp::Atom(clearance)),
                    pair("trace_width"@, Sexp::Atom(width)),
                    pair("via_drill"@, Sexp::Atom(drill)),
                    pair("via_diameter"@, Sexp::Atom(diameter)),
                ],
            ),
        ),
{
    let gap = "\n        "@;
    reveal_strlit("\n        ");
    assert(is_gap(gap));
    reveal_strlit("clearance");
    reveal_strlit("trace_width");
    reveal_strlit("via_drill");
    reveal_strlit("via_diameter");
    assert(is_word("clearance"@) && is_word("trace_width"@) && is_word("via_drill"@) && is_word(
        "via_diameter"@,
    ));
    let (b0, v0) = lemma_netclass_begin(name);
    let (b1, v1) = lemma_pair_added(b0, v0, gap, "clearance"@, clearance);
    let (b2, v2) = lemma_pair_added(b1, v1, gap, "trace_width"@, width);
    let (b3, v3) = lemma_pair_added(b2, v2, gap, "via_drill"@, drill);
    let (b4, v4) = lemma_pair_added(b3, v3, gap, "via_diameter"@, diameter);
    let end = "\n      "@;
    reveal_strlit("\n      ");
    assert(is_gap(end));
    lemma_closed_late(b4, v4, end);
    lemma_closed(b4 + end, v4);
    let x = (b4 + end).push(')');
    lemma_netclass_text(name, clearance, width, drill, diameter);
    assert(netclass_text(name, args) == end + x);
    assert((end + x).skip(7) =~= x);
    assert(v4 =~= seq![
        Sexp::Atom("netclass"@),
        Sexp::Str(name),
        pair("clearance"@, Sexp::Atom(clearance)),
        pair("trace_width"@, Sexp::Atom(width)),
        pair("via_drill"@, Sexp::Atom(drill)),
        pair("via_diameter"@, Sexp::Atom(diameter)),
    ]);
}

/// The text of a netclass, cut before its items.
proof fn lemma_netclass_text(
    name: Seq<char>,
    clearance: Seq<char>,
    width: Seq<char>,
    drill: Seq<char>,
    diameter: Seq<char>,
)
    ensures
        ({
            let gap = "\n        "@;
            let b0 = "(netclass \""@ + name + "\""@;
            let b1 = (b0 + gap + seq!['('] + "clearance"@ + seq![' '] + clearance).push(')');
            let b2 = (b1 + gap + seq!['('] + "trace_width"@ + seq![' '] + width).push(')');
            let b3 = (b2 + gap + seq!['('] + "via_drill"@ + seq![' '] + drill).push(')');
            let b4 = (b3 + gap + seq!['('] + "via_diameter"@ + seq![' '] + diameter).push(')');
            "\n      (netclass \""@ + name + "\"\n        (clearance "@ + clearance
                + ")\n        (trace_width "@ + width + ")\n        (via_drill "@ + drill
                + ")\n        (via_diameter "@ + diameter + ")\n      )"@ == "\n      "@ + (b4
                + "\n      "@).push(')')
        }),
{
    let gap = "\n        "@;
    let end = "\n      "@;
    let b0 = "(netclass \""@ + name + "\""@;
    let b1 = (b0 + gap + seq!['('] + "clearance"@ + seq![' '] + clearance).push(')');
    let b2 = (b1 + gap + seq!['('] + "trace_width"@ + seq![' '] + width).push(')');
    let b3 = (b2 + gap + seq!['('] + "via_drill"@ + seq![' '] + drill).push(')');
    let b4 = (b3 + gap + seq!['('] + "via_diameter"@ + seq![' '] + diameter).push(')');
    lemma_netclass_words();
    let f1 = "\n      (netclass \""@ + name + "\"\n        (clearance "@ + clearance;
    assert(f1.push(')') =~= end + b1);
    let f2 = f1 + ")\n        (trace_width "@ + width;
    lemma_next_pair(f1, b1, end, gap, "trace_width"@, width);
    let f3 = f2 + ")\n        (via_drill "@ + drill;
    lemma_next_pair(f2, b2, end, gap, "via_drill"@, drill);
    let f4 = f3 + ")\n        (via_diameter "@ + diameter;
    lemma_next_pair(f3, b3, end, gap, "via_diameter"@, diameter);
    assert(f4 + ")\n      )"@ =~= f4.push(')') + end + seq![')']);
    assert(end + (b4 + end).push(')') =~= end + b4 + end + seq![')']);
}

proof fn lemma_next_pair(
    f: Seq<char>,
    b: Seq<char>,
    end: Seq<char>,
    gap: Seq<char>,
    key: Seq<char>,
    x: Seq<char>,
)
    requires
        f.push(')') == end + b,
    ensures
        (f + (seq![')'] + gap + seq!['('] + key + seq![' ']) + x).push(')') == end + (b + gap
            + seq!['('] + key + seq![' '] + x).push(')'),
{
    let rest = gap + seq!['('] + key + seq![' '] + x;
    assert((f + (seq![')'] + gap + seq!['('] + key + seq![' ']) + x).push(')') =~= (f.push(')')
        + rest).push(')'));
    assert(end + (b + gap + seq!['('] + key + seq![' '] + x).push(')') =~= (end + b + rest).push(
        ')',
    ));
}

/// What stands between the measures of a netclass.
proof fn lemma_netclass_words()
    ensures
        "\n      (netclass \""@ == "\n      "@ + "(netclass \""@,
        "\"\n        (clearance "@ == "\""@ + "\n        "@ + seq!['('] + "clearance"@ + seq![' '],
        ")\n        (trace_width "@ == seq![')'] + "\n        "@ + seq!['('] + "trace_width"@
            + seq![' '],
        ")\n        (via_drill "@ == seq![')'] + "\n        "@ + seq!['('] + "via_drill"@
            + seq![' '],
        ")\n        (via_diameter "@ == seq![')'] + "\n        "@ + seq!['('] + "via_diameter"@
            + seq![' '],
        ")\n      )"@ == seq![')'] + "\n      "@ + seq![')'],
{
    reveal_strlit("\n        ");
    reveal_strlit("\n      ");
    assert("\n      (netclass \""@ =~= "\n      "@ + "(netclass \""@) by {
        reveal_strlit("(netclass \"");
        reveal_strlit("\n      (netclass \"");
    }
    assert("\"\n        (clearance "@ =~= "\""@ + "\n        "@ + seq!['('] + "clearance"@
        + seq![' ']) by {
        reveal_strlit("\"");
        reveal_strlit("clearance");
        reveal_strlit("\"\n        (clearance ");
    }
    assert(")\n        (trace_width "@ =~= seq![')'] + "\n        "@ + seq!['('] + "trace_width"@
        + seq![' ']) by {
        reveal_strlit("trace_width");
        reveal_strlit(")\n        (trace_width ");
    }
    assert(")\n        (via_drill "@ =~= seq![')'] + "\n        "@ + seq!['('] + "via_drill"@
        + seq![' ']) by {
        reveal_strlit("via_drill");
        reveal_strlit(")\n        (via_drill ");
    }
    assert(")\n        (via_diameter "@ =~= seq![')'] + "\n        "@ + seq!['('] + "via_diameter"@
        + seq![' ']) by {
        reveal_strlit("via_diameter");
        reveal_strlit(")\n        (via_diameter ");
    }
    assert(")\n      )"@ =~= seq![')'] + "\n      "@ + seq![')']) by {
        reveal_strlit(")\n      )");
    }
}

/// A netclass that is inserted into a board without a list of netclasses is read back: the
/// new board is the old one with the netclass as its last item.
pub proof fn law_inserted_netclass_reads_back(
    s: Seq<char>,
    name: Seq<char>,
    args: JsonTree,
    clearance: Seq<char>,
    width: Seq<char>,
    drill: Seq<char>,
    diameter: Seq<char>,
)
    requires
        read_sexp(s) matches Some(Sexp::List(_)),
        !occurs(s, "(net_classes"@),
        is_plain(name),
        is_measure(clearance, args, "clearance"@, "0.2"@),
        is_measure(width, args, "trace_width"@, "0.25"@),
        is_measure(drill, args, "via_drill"@, "0.4"@),
        is_measure(diameter, args, "via_diameter"@, "0.8"@),
        is_word(clearance),
        is_word(width),
        is_word(drill),
        is_word(diameter),
    ensures
        netclass_place(s) matches Some(at) && read_sexp(
            splice(s, at, at, netclass_text(name, args)),
        ) == Some(
            Sexp::List(
                read_sexp(s)->0.items().push(
                    Sexp::List(
                        seq![
                            Sexp::Atom("netclass"@),
                            Sexp::Str(name),
                            pair("clearance"@, Sexp::Atom(clearance)),
                            pair("trace_width"@, Sexp::Atom(width)),
                            pair("via_drill"@, Sexp::Atom(drill)),
                            pair("via_diameter"@, Sexp::Atom(diameter)),
                        ],
                    ),
                ),
            ),
        ),
{
    let new = Sexp::List(
        seq![
            Sexp::Atom("netclass"@),
            Sexp::Str(name),
            pair("clearance"@, Sexp::Atom(clearance)),
            pair("trace_width"@, Sexp::Atom(width)),
            pair("via_drill"@, Sexp::Atom(drill)),
            pair("via_diameter"@, Sexp::Atom(diameter)),
        ],
    );
    law_netclass_text_reads_back(name, args, clearance, width, drill, diameter);
    let x = netclass_text(name, args).skip(7);
    let gap = "\n      "@;
    reveal_strlit("\n      ");
    assert(is_gap(gap));
    let path = Seq::<nat>::empty();
    let tree = read_sexp(s)->0;
    lemma_find_in(s, "(net_classes"@, 0, s.len() as int);
    lemma_last_place(s);
    law_stretch_is_of_the_node(s, 0, path);
    assert(node_at(tree, path) == Some(tree));
    law_insertion_adds_an_item(s, path, gap, x, new);
}

// ─── Names ────────────────────────────────────────────────────────────────────

/// Whatever characters they hold, the names of a zone stand in its text as they are: its text
/// is that of a zone with empty names, with each name inserted in its place.
pub proof fn law_names_stand_in_a_zone_as_they_are(
    id: int,
    net_name: Seq<char>,
    layer: Seq<char>,
    clearance: serde_json::Number,
    min_width: serde_json::Number,
    pts: Seq<(serde_json::Number, serde_json::Number)>,
    uuid: Seq<char>,
)
    ensures
        ({
            let none = Seq::<char>::empty();
            let text = zone_text(id, none, none, clearance, min_width, pts, none);
            let a: int = 27 + signed_decimal(id).len() as int;
            let b: int = a + 11;
            let c: int = b + 10;
            zone_text(id, net_name, layer, clearance, min_width, pts, uuid) == text.take(a)
                + net_name + text.subrange(a, b) + layer + text.subrange(b, c) + uuid + text.skip(c)
        }),
{
    let none = Seq::<char>::empty();
    let n = signed_decimal(id);
    let l1 = "\n  (zone (net "@;
    let l2 = ") (net_name \""@;
    let l3 = "\") (layer \""@;
    let l4 = "\") (uuid \""@;
    reveal_strlit("\n  (zone (net ");
    reveal_strlit(") (net_name \"");
    reveal_strlit("\") (layer \"");
    reveal_strlit("\") (uuid \"");
    let rest = "\")\n    (hatch edge 0.508)\n    (connect_pads (clearance "@ + float_text(clearance)
        + "))\n    (min_thickness "@ + float_text(min_width)
        + ")\n    (fill yes)\n    (polygon (pts"@ + points_text(pts) + "\n    ))\n  )"@;
    lemma_zone_pieces(id, net_name, layer, clearance, min_width, pts, uuid);
    lemma_zone_pieces(id, none, none, clearance, min_width, pts, none);
    let text = l1 + n + l2 + none + l3 + none + l4 + none + rest;
    let a: int = 27 + n.len() as int;
    let b: int = a + 11;
    let c: int = b + 10;
    assert(text.take(a) =~= l1 + n + l2);
    assert(text.subrange(a, b) =~= l3);
    assert(text.subrange(b, c) =~= l4);
    assert(text.skip(c) =~= rest);
}

proof fn lemma_zone_pieces(
    id: int,
    net_name: Seq<char>,
    layer: Seq<char>,
    clearance: serde_json::Number,
    min_width: serde_json::Number,
    pts: Seq<(serde_json::Number, serde_json::Number)>,
    uuid: Seq<char>,
)
    ensures
        zone_text(id, net_name, layer, clearance, min_width, pts, uuid) == "\n  (zone (net "@
            + signed_decimal(id) + ") (net_name \""@ + net_name + "\") (layer \""@ + layer
            + "\") (uuid \""@ + uuid + (
        "\")\n    (hatch edge 0.508)\n    (connect_pads (clearance "@ + float_text(clearance)
            + "))\n    (min_thickness "@ + float_text(min_width)
            + ")\n    (fill yes)\n    (polygon (pts"@ + points_text(pts) + "\n    ))\n  )"@),
{
    let head = "\n  (zone (net "@ + signed_decimal(id) + ") (net_name \""@ + net_name
        + "\") (layer \""@ + layer + "\") (uuid \""@ + uuid;
    let l5 = "\")\n    (hatch edge 0.508)\n    (connect_pads (clearance "@;
    let l6 = "))\n    (min_thickness "@;
    let l7 = ")\n    (fill yes)\n    (polygon (pts"@;
    let l8 = "\n    ))\n  )"@;
    let fc = float_text(clearance);
    let fm = float_text(min_width);
    let p = points_text(pts);
    assert(head + l5 + fc + l6 + fm + l7 + p + l8 =~= head + (l5 + fc + l6 + fm + l7 + p + l8));
}

/// Whatever characters it holds, the name of a netclass stands in its text as it is.
pub proof fn law_name_stands_in_a_netclass_as_it_is(name: Seq<char>, args: JsonTree)
    ensures
        ({
            let text = netclass_text(Seq::empty(), args);
            netclass_text(name, args) == text.take(18) + name + text.skip(18)
        }),
{
    reveal_strlit("\n      (netclass \"");
    let none = Seq::<char>::empty();
    let head = "\n      (netclass \""@;
    lemma_netclass_pieces(name, args);
    lemma_netclass_pieces(none, args);
    let text = netclass_text(none, args);
    assert(text.take(18) =~= head);
    assert(head + name + text.skip(18) =~= netclass_text(name, args));
}

proof fn lemma_netclass_pieces(name: Seq<char>, args: JsonTree)
    ensures
        netclass_text(name, args) == "\n      (netclass \""@ + name + (
        "\"\n        (clearance "@ + argument_text(args, "clearance"@, "0.2"@)
            + ")\n        (trace_width "@ + argument_text(args, "trace_width"@, "0.25"@)
            + ")\n        (via_drill "@ + argument_text(args, "via_drill"@, "0.4"@)
            + ")\n        (via_diameter "@ + argument_text(args, "via_diameter"@, "0.8"@)
            + ")\n      )"@),
{
    let head = "\n      (netclass \""@ + name;
    let l1 = "\"\n        (clearance "@;
    let l2 = ")\n        (trace_width "@;
    let l3 = ")\n        (via_drill "@;
    let l4 = ")\n        (via_diameter "@;
    let l5 = ")\n      )"@;
    let a = argument_text(args, "clearance"@, "0.2"@);
    let b = argument_text(args, "trace_width"@, "0.25"@);
    let c = argument_text(args, "via_drill"@, "0.4"@);
    let d = argument_text(args, "via_diameter"@, "0.8"@);
    assert(head + l1 + a + l2 + b + l3 + c + l4 + d + l5 =~= head + (l1 + a + l2 + b + l3 + c + l4
        + d + l5));
}

} // verus!
